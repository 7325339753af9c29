use crate::hash::{push_digits, spec_digits};
use vstd::prelude::*;
use vstd::string::StringExecFns;

verus! {

/// The 32-byte digest of a byte string. The value is a fixed function of
/// the bytes alone; it stands for their BLAKE3 digest.
pub uninterp spec fn digest_of(bytes: Seq<u8>) -> Seq<u8>;

/// Digest a byte string.
///
/// Relies on `blake3::hash`: the 32-byte digest is a fixed function of the
/// input bytes alone; feeding the same bytes through `blake3::Hasher` in
/// pieces yields the same digest.
#[verifier::external_body]
fn digest(data: &[u8]) -> (r: Vec<u8>)
    ensures
        r@ == digest_of(data@),
        r@.len() == 32,
{
    blake3::hash(data).as_bytes().to_vec()
}

/// The shape a Merkle node stands for: a leaf digest with its chunk index,
/// or a branch carrying the digest that binds its children.
pub enum MerkleView {
    Leaf { digest: Seq<u8>, chunk: int },
    Branch { digest: Seq<u8>, left: Box<MerkleView>, right: Box<MerkleView> },
}

/// The digest at the top of a shape.
pub open spec fn digest_view(t: MerkleView) -> Seq<u8> {
    match t {
        MerkleView::Leaf { digest, .. } => digest,
        MerkleView::Branch { digest, .. } => digest,
    }
}

/// Integrity: every digest is 32 bytes, and every branch digest is the
/// digest of its children's digests joined left-to-right.
pub open spec fn view_wf(t: MerkleView) -> bool
    decreases t,
{
    match t {
        MerkleView::Leaf { digest, .. } => digest.len() == 32,
        MerkleView::Branch { digest, left, right } => view_wf(*left) && view_wf(*right) && digest
            == digest_of(digest_view(*left) + digest_view(*right)) && digest.len() == 32,
    }
}

/// How many branches stand above a leaf at most.
pub open spec fn view_height(t: MerkleView) -> nat
    decreases t,
{
    match t {
        MerkleView::Leaf { .. } => 0,
        MerkleView::Branch { left, right, .. } => 1 + if view_height(*left) >= view_height(
            *right,
        ) {
            view_height(*left)
        } else {
            view_height(*right)
        },
    }
}

/// The balanced tree built over a row of leaves: split at the midpoint, the
/// left half taking the odd leaf, and bind the two halves under one digest.
pub open spec fn spec_build_tree(leaves: Seq<MerkleView>) -> MerkleView
    recommends
        leaves.len() >= 1,
    decreases leaves.len(),
{
    if leaves.len() <= 1 {
        leaves[0]
    } else {
        let mid = ((leaves.len() + 1) / 2) as int;
        let l = spec_build_tree(leaves.take(mid));
        let r = spec_build_tree(leaves.skip(mid));
        MerkleView::Branch {
            digest: digest_of(digest_view(l) + digest_view(r)),
            left: Box::new(l),
            right: Box::new(r),
        }
    }
}

/// The leaf row a chunk listing stands for: each chunk's digest, paired with
/// the chunk's position.
pub open spec fn leaf_views(chunks: Seq<&[u8]>) -> Seq<MerkleView> {
    chunks.map(|i: int, c: &[u8]| MerkleView::Leaf { digest: digest_of(c@), chunk: i })
}

/// The shapes a row of nodes stands for.
pub open spec fn views_of(ns: Seq<Node>) -> Seq<MerkleView> {
    ns.map_values(|n: Node| n.to_view())
}

/// A Merkle tree over fixed-size chunks, named by its root.
#[derive(Debug)]
pub struct Tree {
    root: Node,
}

/// One node of the tree: a leaf remembers which chunk it digests, a branch
/// holds its children; both carry their digest.
#[derive(Debug, Eq)]
pub struct Node {
    right: Option<Box<Node>>,
    left: Option<Box<Node>>,
    hash: Vec<u8>,
    chunk_id: Option<usize>,
}

/// Whether two byte strings hold the same bytes.
fn bytes_eq(a: &Vec<u8>, b: &Vec<u8>) -> (r: bool)
    ensures
        r == (a@ == b@),
{
    if a.len() != b.len() {
        return false;
    }
    let n = a.len();
    let mut i: usize = 0;
    while i < n
        invariant
            n == a@.len(),
            n == b@.len(),
            i <= n,
            forall|j: int| 0 <= j < i ==> a@[j] == b@[j],
        decreases n - i,
    {
        if a[i] != b[i] {
            return false;
        }
        i += 1;
    }
    proof {
        assert(a@ =~= b@);
    }
    true
}

/// Copy a byte string.
fn copy_bytes(v: &Vec<u8>) -> (r: Vec<u8>)
    ensures
        r@ == v@,
{
    let n = v.len();
    let mut r: Vec<u8> = Vec::new();
    let mut i: usize = 0;
    while i < n
        invariant
            n == v@.len(),
            i <= n,
            r@ == v@.subrange(0, i as int),
        decreases n - i,
    {
        r.push(v[i]);
        proof {
            assert(r@ =~= v@.subrange(0, i as int + 1));
        }
        i += 1;
    }
    proof {
        assert(v@.subrange(0, n as int) =~= v@);
    }
    r
}

impl PartialEq for Node {
    /// Nodes compare by their digest alone.
    fn eq(&self, other: &Self) -> (r: bool) {
        let r = bytes_eq(&self.hash, &other.hash);
        proof {
            assert(digest_view(self@) == self.hash@);
            assert(digest_view(other@) == other.hash@);
        }
        r
    }
}

impl vstd::std_specs::cmp::PartialEqSpecImpl for Node {
    open spec fn obeys_eq_spec() -> bool {
        true
    }

    open spec fn eq_spec(&self, other: &Node) -> bool {
        digest_view(self@) == digest_view(other@)
    }
}

impl View for Node {
    type V = MerkleView;

    closed spec fn view(&self) -> MerkleView {
        self.to_view()
    }
}

impl View for Tree {
    type V = MerkleView;

    closed spec fn view(&self) -> MerkleView {
        self.root.to_view()
    }
}

/// What construction can fail on.
#[derive(Debug)]
pub enum TreeError {
    /// No chunks were provided, so there is no root to build.
    NoChunks,
}

impl Node {
    /// The shape this node stands for; a node with fewer than two children
    /// reads as a leaf.
    pub closed spec fn to_view(&self) -> MerkleView
        decreases self,
    {
        match (self.left, self.right) {
            (Some(l), Some(r)) => MerkleView::Branch {
                digest: self.hash@,
                left: Box::new((*l).to_view()),
                right: Box::new((*r).to_view()),
            },
            _ => MerkleView::Leaf {
                digest: self.hash@,
                chunk: match self.chunk_id {
                    Some(c) => c as int,
                    None => -1,
                },
            },
        }
    }

    /// Render this subtree as indented text: each node is one line naming
    /// the first byte of its digest, and a branch lists its children one
    /// level deeper behind `L: ` and `R: ` markers.
    pub fn fmt_with_indent(&self, indent: usize) -> (out: String)
        requires
            view_wf(self@),
            indent + view_height(self@) < usize::MAX,
        ensures
            out@ == spec_render(self@, indent as nat),
        decreases self,
    {
        let mut out = String::new();
        push_pad(&mut out, indent);
        out.append("Node(hash: [");
        proof {
            assert(digest_view(self@) == self.hash@);
        }
        push_digits(self.hash[0] as u16, &mut out);
        out.append("..])\n");
        match (&self.left, &self.right) {
            (Some(l), Some(r)) => {
                push_pad(&mut out, indent);
                out.append("L: ");
                let ls = l.fmt_with_indent(indent + 1);
                out.append(ls.as_str());
                push_pad(&mut out, indent);
                out.append("R: ");
                let rs = r.fmt_with_indent(indent + 1);
                out.append(rs.as_str());
                proof {
                    assert(out@ =~= spec_render(self@, indent as nat));
                }
            },
            _ => {
                proof {
                    assert(out@ =~= spec_render(self@, indent as nat));
                }
            },
        }
        out
    }

    /// Bind two subtrees under one digest: the parent digests the two child
    /// digests joined left-to-right.
    pub fn create_parent(left: Self, right: Self) -> (parent: Self)
        ensures
            parent@ == (MerkleView::Branch {
                digest: digest_of(digest_view(left@) + digest_view(right@)),
                left: Box::new(left@),
                right: Box::new(right@),
            }),
            view_wf(left@) && view_wf(right@) ==> view_wf(parent@),
    {
        let mut combined = copy_bytes(&left.hash);
        append_bytes(&mut combined, &right.hash);
        let h = digest(combined.as_slice());
        let parent = Node {
            left: Some(Box::new(left)),
            right: Some(Box::new(right)),
            hash: h,
            chunk_id: None,
        };
        parent
    }
}

/// Four spaces per indent level.
pub open spec fn spec_pad(indent: nat) -> Seq<char>
    decreases indent,
{
    if indent == 0 {
        Seq::empty()
    } else {
        spec_pad((indent - 1) as nat) + "    "@
    }
}

/// The indented rendering of a shape: one header line naming the first byte
/// of the digest; under a branch, the two children one level deeper behind
/// `L: ` and `R: ` markers.
pub open spec fn spec_render(t: MerkleView, indent: nat) -> Seq<char>
    decreases t,
{
    let head = spec_pad(indent) + "Node(hash: ["@ + spec_digits(digest_view(t)[0] as nat)
        + "..])\n"@;
    match t {
        MerkleView::Leaf { .. } => head,
        MerkleView::Branch { left, right, .. } => head + spec_pad(indent) + "L: "@ + spec_render(
            *left,
            indent + 1,
        ) + spec_pad(indent) + "R: "@ + spec_render(*right, indent + 1),
    }
}

/// Append four spaces per indent level.
fn push_pad(out: &mut String, indent: usize)
    ensures
        final(out)@ == old(out)@ + spec_pad(indent as nat),
{
    let mut i: usize = 0;
    proof {
        assert(out@ =~= old(out)@ + spec_pad(0));
    }
    while i < indent
        invariant
            i <= indent,
            out@ == old(out)@ + spec_pad(i as nat),
        decreases indent - i,
    {
        out.append("    ");
        proof {
            assert(out@ =~= old(out)@ + spec_pad(i as nat + 1));
        }
        i += 1;
    }
}

/// Append the bytes of `src` to `dst`.
fn append_bytes(dst: &mut Vec<u8>, src: &Vec<u8>)
    ensures
        final(dst)@ == old(dst)@ + src@,
{
    let n = src.len();
    let mut i: usize = 0;
    proof {
        assert(dst@ =~= old(dst)@ + src@.subrange(0, 0));
    }
    while i < n
        invariant
            n == src@.len(),
            i <= n,
            dst@ == old(dst)@ + src@.subrange(0, i as int),
        decreases n - i,
    {
        dst.push(src[i]);
        proof {
            assert(dst@ =~= old(dst)@ + src@.subrange(0, i as int + 1));
        }
        i += 1;
    }
    proof {
        assert(src@.subrange(0, n as int) =~= src@);
    }
}

impl Tree {
    /// Build a balanced Merkle tree over the chunks, in order. Fails exactly
    /// when no chunk is provided; otherwise the root binds the digests of
    /// all chunks.
    pub fn new(chunks: Vec<&[u8]>) -> (result: Result<Self, TreeError>)
        ensures
            result is Err <==> chunks@.len() == 0,
            result matches Ok(t) ==> t@ == spec_build_tree(leaf_views(chunks@)) && view_wf(t@),
    {
        if chunks.is_empty() {
            return Err(TreeError::NoChunks);
        }
        let n = chunks.len();
        let mut leaves: Vec<Node> = Vec::new();
        let mut i: usize = 0;
        while i < n
            invariant
                n == chunks@.len(),
                i <= n,
                leaves@.len() == i,
                forall|k: int|
                    0 <= k < i ==> #[trigger] leaves@[k].to_view() == leaf_views(chunks@)[k]
                        && view_wf(leaves@[k].to_view()),
            decreases n - i,
        {
            let h = digest(chunks[i]);
            let leaf = Node { right: None, left: None, hash: h, chunk_id: Some(i) };
            proof {
                assert(leaf.to_view() == leaf_views(chunks@)[i as int]);
            }
            leaves.push(leaf);
            i += 1;
        }
        proof {
            assert(views_of(leaves@) =~= leaf_views(chunks@));
        }
        let root = Self::build_tree(leaves);
        Ok(Self { root })
    }

    /// The indented text of the whole tree, as [`Node::fmt_with_indent`]
    /// writes it from the root.
    pub fn render(&self) -> (out: String)
        requires
            view_wf(self@),
            view_height(self@) < usize::MAX,
        ensures
            out@ == spec_render(self@, 0),
    {
        self.root.fmt_with_indent(0)
    }

    /// Combine a nonempty row of subtrees into one balanced tree, splitting
    /// at the midpoint with the left half taking the odd subtree.
    fn build_tree(leaves: Vec<Node>) -> (root: Node)
        requires
            leaves@.len() >= 1,
        ensures
            root@ == spec_build_tree(views_of(leaves@)),
            (forall|k: int| 0 <= k < leaves@.len() ==> view_wf(#[trigger] leaves@[k]@))
                ==> view_wf(root@),
        decreases leaves@.len(),
    {
        let mut leaves = leaves;
        if leaves.len() == 1 {
            let n = leaves.remove(0);
            return n;
        }
        let mid = leaves.len() / 2 + leaves.len() % 2;
        proof {
            assert(mid == (leaves@.len() + 1) / 2);
        }
        let ghost whole = leaves@;
        let right_part = leaves.split_off(mid);
        let left_node = Self::build_tree(leaves);
        let right_node = Self::build_tree(right_part);
        let parent = Node::create_parent(left_node, right_node);
        proof {
            assert(views_of(whole.subrange(0, mid as int)) =~= views_of(whole).take(mid as int));
            assert(views_of(whole.subrange(mid as int, whole.len() as int)) =~= views_of(
                whole,
            ).skip(mid as int));
        }
        parent
    }
}

} // verus!
