use vstd::prelude::*;
use vstd::utf8::encode_utf8;
use crate::bytes::{append_bytes, copy_bytes};
use crate::digest::{sha3_256_hex, sha3_hex};

verus! {

/// Number of leaves of the tree, and so the most files it holds.
pub const LEAF_COUNT: usize = 8;

/// The view of an optional string: its characters, if present.
pub open spec fn opt_view(o: Option<String>) -> Option<Seq<char>> {
    match o {
        Some(s) => Some(s@),
        None => None,
    }
}

/// The bytes that an optional node hash contributes to its parent's input:
/// its UTF-8 encoding, or nothing for an absent node.
pub open spec fn opt_bytes(o: Option<Seq<char>>) -> Seq<u8> {
    match o {
        Some(s) => encode_utf8(s),
        None => seq![],
    }
}

/// The hash text of an internal node from the texts of its two children.
pub open spec fn node_hash(left: Option<Seq<char>>, right: Option<Seq<char>>) -> Seq<char> {
    sha3_hex(opt_bytes(left) + opt_bytes(right))
}

/// Node `k` (1-based heap order: children of `k` are `2k` and `2k + 1`,
/// leaves are `8..16`) of the tree over the stored files: leaf `8 + i`
/// holds the hash of file `i`, an internal node the hash of its children,
/// and a node under which no file lies is absent.
pub open spec fn tree_node(files: Seq<Seq<u8>>, k: int) -> Option<Seq<char>>
    decreases 16 - k,
{
    if k < 1 || k >= 16 {
        None
    } else if k >= 8 {
        if k - 8 < files.len() {
            Some(sha3_hex(files[k - 8]))
        } else {
            None
        }
    } else {
        let l = tree_node(files, 2 * k);
        let r = tree_node(files, 2 * k + 1);
        if l is None && r is None {
            None
        } else {
            Some(node_hash(l, r))
        }
    }
}

/// Node `k` is on the path from leaf `p` to the root, `p` excluded.
pub open spec fn is_ancestor(p: int, k: int) -> bool {
    k == p / 2 || k == p / 4 || k == p / 8
}

/// A tree of up to eight files with the SHA3-256 hash of each file at a
/// leaf and the hash of each pair of siblings at their parent.
pub struct Merkle {
    /// Node hashes, 1-indexed in heap order; index 0 is unused.
    pub tree: [Option<String>; 16],
    /// Stored files, 1-indexed; index 0 is unused.
    pub files: [Option<Vec<u8>>; 9],
    /// Number of files stored; they occupy `files[1..=file_count]`.
    pub file_count: usize,
}

impl View for Merkle {
    type V = Seq<Seq<u8>>;

    /// The stored files, in the order in which they were added.
    open spec fn view(&self) -> Seq<Seq<u8>> {
        Seq::new(self.file_count as nat, |i: int| self.files@[i + 1].unwrap()@)
    }
}

impl Merkle {
    /// The fields agree with the files they store: files `1..=file_count`
    /// are present and no other, and every node holds `tree_node` of them.
    pub open spec fn wf(&self) -> bool {
        &&& self.file_count <= LEAF_COUNT
        &&& self.files@[0] is None
        &&& forall|i: int| 1 <= i < 9 ==> (#[trigger] self.files@[i] is Some <==> i <= self.file_count)
        &&& self.tree@[0] is None
        &&& forall|k: int| 1 <= k < 16 ==> opt_view(#[trigger] self.tree@[k]) == tree_node(self@, k)
        &&& forall|k: int| 1 <= k < 16 && #[trigger] self.tree@[k] is Some ==> self.tree@[k].unwrap()@.len() == 64
    }

    /// The hash text held at node `k`, if any.
    pub open spec fn node(&self, k: int) -> Option<Seq<char>> {
        opt_view(self.tree@[k])
    }

    /// An empty tree.
    pub fn make_tree() -> (m: Merkle)
        ensures
            m.wf(),
            m@ == Seq::<Seq<u8>>::empty(),
    {
        let m = Merkle {
            tree: [None, None, None, None, None, None, None, None, None, None, None, None, None, None, None, None],
            files: [None, None, None, None, None, None, None, None, None],
            file_count: 0,
        };
        proof {
            assert(m@ =~= Seq::<Seq<u8>>::empty());
            assert forall|k: int| 1 <= k < 16 implies opt_view(#[trigger] m.tree@[k]) == tree_node(m@, k) by {
                lemma_empty_tree(k);
            }
        }
        m
    }

    /// Number of files stored.
    pub fn file_count(&self) -> (n: usize)
        requires
            self.wf(),
        ensures
            n == self@.len(),
    {
        self.file_count
    }
}

/// Hashes two optional children the way a parent node is computed: the
/// UTF-8 bytes of each present child, left then right, digested together.
fn hash_children(left: &Option<String>, right: &Option<String>) -> (h: String)
    ensures
        h@ == node_hash(opt_view(*left), opt_view(*right)),
        h@.len() == 64,
{
    let mut buf: Vec<u8> = Vec::new();
    if let Some(s) = left {
        append_bytes(&mut buf, s.as_str().as_bytes());
    }
    if let Some(s) = right {
        append_bytes(&mut buf, s.as_str().as_bytes());
    }
    assert(buf@ == opt_bytes(opt_view(*left)) + opt_bytes(opt_view(*right)));
    sha3_256_hex(buf.as_slice())
}

/// Node `n` of `t` is present and holds the hash of its two children as
/// they stand in `t`.
pub open spec fn holds_children_hash(t: Seq<Option<String>>, n: int) -> bool {
    t[n] is Some && t[n].unwrap()@ == node_hash(opt_view(t[2 * n]), opt_view(t[2 * n + 1]))
}

impl Merkle {
    /// Recomputes, bottom-up, the nodes on the path from leaf
    /// `file_count + LEAF_COUNT` to the root: each becomes the hash of its
    /// children as they then stand (present even if both are absent). No
    /// other node and no file changes.
    fn update_tree(&mut self)
        requires
            old(self).file_count < LEAF_COUNT,
        ensures
            final(self).file_count == old(self).file_count,
            final(self).files == old(self).files,
            forall|k: int| 0 <= k < 16 && !is_ancestor(old(self).file_count + 8, k)
                ==> #[trigger] final(self).tree@[k] == old(self).tree@[k],
            forall|n: int| is_ancestor(old(self).file_count + 8, n) ==> {
                &&& #[trigger] holds_children_hash(final(self).tree@, n)
                &&& final(self).tree@[n].unwrap()@.len() == 64
            },
            // on a tree whose path nodes already hold their children's hash,
            // it changes no node: a second run repeats the first
            (forall|n: int| is_ancestor(old(self).file_count + 8, n)
                ==> #[trigger] holds_children_hash(old(self).tree@, n))
                ==> forall|k: int| 0 <= k < 16 ==> opt_view(#[trigger] final(self).tree@[k])
                    == opt_view(old(self).tree@[k]),
    {
        let ghost p: int = self.file_count + 8;
        let mut node: usize = (self.file_count + LEAF_COUNT) / 2;
        while node >= 1
            invariant
                8 <= p < 16,
                p == self.file_count + 8,
                node == 0 || node == p / 2 || node == p / 4 || node == p / 8,
                self.file_count == old(self).file_count,
                self.files == old(self).files,
                forall|k: int| 0 <= k < 16 && !(is_ancestor(p, k) && k > node)
                    ==> #[trigger] self.tree@[k] == old(self).tree@[k],
                forall|n: int| is_ancestor(p, n) && n > node ==> {
                    &&& #[trigger] holds_children_hash(self.tree@, n)
                    &&& self.tree@[n].unwrap()@.len() == 64
                },
            decreases node,
        {
            let h = hash_children(&self.tree[node * 2], &self.tree[node * 2 + 1]);
            let ghost before = self.tree@;
            self.tree[node] = Some(h);
            proof {
                assert forall|n: int| is_ancestor(p, n) && n > node / 2 implies {
                    &&& #[trigger] holds_children_hash(self.tree@, n)
                    &&& self.tree@[n].unwrap()@.len() == 64
                } by {
                    if n != node {
                        assert(holds_children_hash(before, n));
                        assert(self.tree@[2 * n] == before[2 * n]);
                        assert(self.tree@[2 * n + 1] == before[2 * n + 1]);
                    }
                }
            }
            node = node / 2;
        }
        proof {
            let t0 = old(self).tree@;
            let t1 = self.tree@;
            assert forall|n: int| is_ancestor(old(self).file_count + 8, n) implies {
                &&& #[trigger] holds_children_hash(t1, n)
                &&& t1[n].unwrap()@.len() == 64
            } by {
                assert(n > node);
            }
            if forall|n: int| is_ancestor(p, n) ==> #[trigger] holds_children_hash(t0, n) {
                let a1 = p / 2;
                let a2 = p / 4;
                let a3 = p / 8;
                assert(holds_children_hash(t0, a1) && holds_children_hash(t1, a1));
                assert(t1[2 * a1] == t0[2 * a1] && t1[2 * a1 + 1] == t0[2 * a1 + 1]);
                assert(opt_view(t1[a1]) == opt_view(t0[a1]));
                assert(holds_children_hash(t0, a2) && holds_children_hash(t1, a2));
                assert(opt_view(t1[2 * a2]) == opt_view(t0[2 * a2]));
                assert(opt_view(t1[2 * a2 + 1]) == opt_view(t0[2 * a2 + 1]));
                assert(opt_view(t1[a2]) == opt_view(t0[a2]));
                assert(holds_children_hash(t0, a3) && holds_children_hash(t1, a3));
                assert(opt_view(t1[2 * a3]) == opt_view(t0[2 * a3]));
                assert(opt_view(t1[2 * a3 + 1]) == opt_view(t0[2 * a3 + 1]));
                assert(opt_view(t1[a3]) == opt_view(t0[a3]));
                assert forall|k: int| 0 <= k < 16 implies opt_view(#[trigger] t1[k]) == opt_view(t0[k]) by {
                    if !is_ancestor(p, k) {
                        assert(t1[k] == t0[k]);
                    }
                }
            }
        }
    }

    /// Stores `file` as the next file and updates the tree: the new leaf
    /// holds the hash of `file` and every node above it is recomputed.
    pub fn add_file(&mut self, file: &[u8])
        requires
            old(self).wf(),
            old(self)@.len() < LEAF_COUNT,
        ensures
            final(self).wf(),
            final(self)@ == old(self)@.push(file@),
    {
        let fc = self.file_count;
        let ghost v = self@.push(file@);
        let ghost p: int = fc + 8;
        proof {
            assert forall|k: int| 1 <= k < 16 && !is_ancestor(p, k) && k != p
                implies tree_node(v, k) == tree_node(self@, k) by {
                lemma_unaffected(self@, file@, k);
            }
        }
        let h = sha3_256_hex(file);
        self.files[fc + 1] = Some(copy_bytes(file));
        self.tree[fc + LEAF_COUNT] = Some(h);
        let ghost mid = self.tree@;
        assert(tree_node(v, p) == Some(h@));
        self.update_tree();
        self.file_count = fc + 1;
        proof {
            assert(self@ =~= v) by {
                assert forall|i: int| 0 <= i < v.len() implies self@[i] == v[i] by {
                    if i < fc {
                        assert(self.files@[i + 1] == old(self).files@[i + 1]);
                    }
                }
            }
            let t = self.tree@;
            assert forall|k: int| 1 <= k < 16 && !is_ancestor(p, k)
                implies opt_view(#[trigger] t[k]) == tree_node(v, k) && (t[k] is Some ==> t[k].unwrap()@.len() == 64) by {
                assert(t[k] == mid[k]);
                if k != p {
                    assert(mid[k] == old(self).tree@[k]);
                    assert(opt_view(old(self).tree@[k]) == tree_node(old(self)@, k));
                }
            }
            let a1 = p / 2;
            let a2 = p / 4;
            let a3 = p / 8;
            assert(holds_children_hash(t, a1));
            assert(opt_view(t[2 * a1]) == tree_node(v, 2 * a1));
            assert(opt_view(t[2 * a1 + 1]) == tree_node(v, 2 * a1 + 1));
            assert(tree_node(v, p) is Some);
            assert(opt_view(t[a1]) == tree_node(v, a1));
            assert(holds_children_hash(t, a2));
            assert(opt_view(t[2 * a2]) == tree_node(v, 2 * a2));
            assert(opt_view(t[2 * a2 + 1]) == tree_node(v, 2 * a2 + 1));
            assert(opt_view(t[a2]) == tree_node(v, a2));
            assert(holds_children_hash(t, a3));
            assert(opt_view(t[2 * a3]) == tree_node(v, 2 * a3));
            assert(opt_view(t[2 * a3 + 1]) == tree_node(v, 2 * a3 + 1));
            assert(opt_view(t[a3]) == tree_node(v, a3));
            assert forall|k: int| 1 <= k < 16 implies opt_view(#[trigger] t[k]) == tree_node(v, k) by {
                if !is_ancestor(p, k) {
                    assert(opt_view(t[k]) == tree_node(v, k) && (t[k] is Some ==> t[k].unwrap()@.len() == 64));
                }
            }
            assert forall|k: int| 1 <= k < 16 && #[trigger] t[k] is Some implies t[k].unwrap()@.len() == 64 by {
                if !is_ancestor(p, k) {
                    assert(opt_view(t[k]) == tree_node(v, k) && (t[k] is Some ==> t[k].unwrap()@.len() == 64));
                } else {
                    assert(holds_children_hash(t, k));
                }
            }
            assert(t[0] == old(self).tree@[0]);
        }
    }

    /// The root hash, or an error while no file is stored.
    pub fn get_root_hash(&self) -> (res: Result<String, &'static str>)
        requires
            self.wf(),
        ensures
            res is Ok <==> self@.len() > 0,
            res matches Ok(s) ==> Some(s@) == tree_node(self@, 1),
            res matches Err(e) ==> e@ == "No files in merkle tree"@,
    {
        proof {
            lemma_root_present(self@);
        }
        match &self.tree[1] {
            Some(s) => Ok(s.clone()),
            None => Err("No files in merkle tree"),
        }
    }
}

/// The sibling hashes met on the way from node `node` up to the root,
/// lowest level first; an absent sibling contributes nothing.
pub open spec fn complement_path(files: Seq<Seq<u8>>, node: int) -> Seq<Seq<char>>
    decreases node,
{
    if node <= 1 {
        seq![]
    } else {
        let sibling = if node % 2 == 0 { node + 1 } else { node - 1 };
        let here = match tree_node(files, sibling) {
            Some(h) => seq![h],
            None => seq![],
        };
        here + complement_path(files, node / 2)
    }
}

/// The characters of each string.
pub open spec fn strings_view(v: Seq<String>) -> Seq<Seq<char>> {
    v.map_values(|s: String| s@)
}

impl Merkle {
    /// The file stored under `file_id` (1-based) together with its
    /// complementary hashes: the siblings met on the path from the file's
    /// leaf (`file_id + LEAF_COUNT - 1`) to the root, lowest level first,
    /// absent siblings left out.
    pub fn get_complement_nodes(&self, file_id: usize) -> (res: (Vec<Vec<u8>>, Vec<String>))
        requires
            self.wf(),
            1 <= file_id <= self@.len(),
        ensures
            res.0@.len() == 1,
            res.0@[0]@ == self@[file_id - 1],
            strings_view(res.1@) == complement_path(self@, file_id + 7),
            // the siblings of the file's own leaf, its parent and its grandparent,
            // each exactly when present in the tree
            strings_view(res.1@) == (match self.node(if (file_id + 7) % 2 == 0 { file_id + 8 } else { file_id + 6 }) {
                Some(h) => seq![h],
                None => Seq::<Seq<char>>::empty(),
            }) + (match self.node(if ((file_id + 7) / 2) % 2 == 0 { (file_id + 7) / 2 + 1 } else { (file_id + 7) / 2 - 1 }) {
                Some(h) => seq![h],
                None => Seq::<Seq<char>>::empty(),
            }) + (match self.node(if ((file_id + 7) / 4) % 2 == 0 { (file_id + 7) / 4 + 1 } else { (file_id + 7) / 4 - 1 }) {
                Some(h) => seq![h],
                None => Seq::<Seq<char>>::empty(),
            }),
    {
        proof {
            let leaf = file_id + 7;
            lemma_complement_path_is_present_siblings(self@, leaf);
            let s1 = if leaf % 2 == 0 { leaf + 1 } else { leaf - 1 };
            let s2 = if (leaf / 2) % 2 == 0 { leaf / 2 + 1 } else { leaf / 2 - 1 };
            let s3 = if (leaf / 4) % 2 == 0 { leaf / 4 + 1 } else { leaf / 4 - 1 };
            assert(self.node(s1) == tree_node(self@, s1));
            assert(self.node(s2) == tree_node(self@, s2));
            assert(self.node(s3) == tree_node(self@, s3));
        }
        let mut data_complement_files: Vec<Vec<u8>> = Vec::new();
        let mut data_complement_hashes: Vec<String> = Vec::new();
        match &self.files[file_id] {
            Some(file) => {
                data_complement_files.push(copy_bytes(file.as_slice()));
            },
            None => {
                assert(false);
            },
        }
        let mut node: usize = file_id + LEAF_COUNT - 1;
        let ghost start: int = node as int;
        while node > 1
            invariant
                1 <= node < 16,
                start == file_id + 7,
                self.wf(),
                strings_view(data_complement_hashes@) + complement_path(self@, node as int)
                    == complement_path(self@, start),
            decreases node,
        {
            let known = node;
            node = node / 2;
            let ghost before = data_complement_hashes@;
            if let Some(hash) = &self.tree[node * 2] {
                if known != node * 2 {
                    data_complement_hashes.push(hash.clone());
                }
            }
            if let Some(hash) = &self.tree[node * 2 + 1] {
                if known != node * 2 + 1 {
                    data_complement_hashes.push(hash.clone());
                }
            }
            proof {
                let sibling = if known % 2 == 0 { known + 1 } else { known - 1 };
                assert(opt_view(self.tree@[sibling as int]) == tree_node(self@, sibling as int));
                let here = match tree_node(self@, sibling as int) {
                    Some(h) => seq![h],
                    None => Seq::<Seq<char>>::empty(),
                };
                assert(strings_view(data_complement_hashes@) =~= strings_view(before) + here);
                assert(complement_path(self@, known as int) == here + complement_path(self@, node as int));
                assert(strings_view(data_complement_hashes@) + complement_path(self@, node as int)
                    =~= strings_view(before) + complement_path(self@, known as int));
            }
        }
        assert(complement_path(self@, node as int) =~= Seq::<Seq<char>>::empty());
        assert(strings_view(data_complement_hashes@) =~= complement_path(self@, start));
        (data_complement_files, data_complement_hashes)
    }
}

/// In a well-formed tree every node holds the hash text that the stored
/// files determine, and it stores at most `LEAF_COUNT` files.
pub proof fn lemma_wf_contents(m: Merkle)
    requires
        m.wf(),
    ensures
        forall|k: int| 1 <= k < 16 ==> #[trigger] m.node(k) == tree_node(m@, k),
        m@.len() <= LEAF_COUNT,
{
}

/// The shape of a well-formed tree over its fields: leaf `8 + i` holds
/// the hash of stored file `i + 1` exactly while that file is stored, and
/// each internal node is absent when both children are, and otherwise the
/// hash of the UTF-8 bytes of its present children, left then right.
pub proof fn lemma_wf_shape(m: Merkle)
    requires
        m.wf(),
    ensures
        forall|i: int| 0 <= i < 8 ==> (#[trigger] m.files@[i + 1] is Some <==> i < m.file_count),
        forall|i: int| 0 <= i < m.file_count ==> #[trigger] m.node(8 + i) == Some(
            sha3_hex(m.files@[i + 1].unwrap()@),
        ),
        forall|i: int| m.file_count <= i < 8 ==> #[trigger] m.node(8 + i) is None,
        forall|n: int| 1 <= n < 8 ==> #[trigger] m.node(n) == (if m.node(2 * n) is None && m.node(2 * n + 1) is None {
            None
        } else {
            Some(node_hash(m.node(2 * n), m.node(2 * n + 1)))
        }),
{
    assert forall|i: int| 0 <= i < 8 implies (#[trigger] m.files@[i + 1] is Some <==> i < m.file_count) by {
    }
    assert forall|n: int| 1 <= n < 8 implies #[trigger] m.node(n) == (if m.node(2 * n) is None && m.node(2 * n + 1) is None {
        None
    } else {
        Some(node_hash(m.node(2 * n), m.node(2 * n + 1)))
    }) by {
        assert(m.node(2 * n) == tree_node(m@, 2 * n));
        assert(m.node(2 * n + 1) == tree_node(m@, 2 * n + 1));
        assert(m.node(n) == tree_node(m@, n));
    }
    assert forall|i: int| 0 <= i < m.file_count implies #[trigger] m.node(8 + i) == Some(
        sha3_hex(m.files@[i + 1].unwrap()@),
    ) by {
        assert(m.node(8 + i) == tree_node(m@, 8 + i));
    }
    assert forall|i: int| m.file_count <= i < 8 implies #[trigger] m.node(8 + i) is None by {
        assert(m.node(8 + i) == tree_node(m@, 8 + i));
    }
}

/// A parent's hash digests the UTF-8 bytes of its present children, left
/// then right, each taken whole: two present children contribute both
/// texts even when they are equal, and an absent child contributes nothing.
pub proof fn lemma_node_hash_digests_children(a: Option<Seq<char>>, b: Option<Seq<char>>)
    ensures
        a is Some && b is Some ==> node_hash(a, b) == sha3_hex(encode_utf8(a.unwrap()) + encode_utf8(b.unwrap())),
        a is Some && b is None ==> node_hash(a, b) == sha3_hex(encode_utf8(a.unwrap())),
        a is None && b is Some ==> node_hash(a, b) == sha3_hex(encode_utf8(b.unwrap())),
        a is None && b is None ==> node_hash(a, b) == sha3_hex(Seq::<u8>::empty()),
{
    match a {
        Some(x) => {
            match b {
                Some(y) => {},
                None => {
                    assert(encode_utf8(x) + Seq::<u8>::empty() =~= encode_utf8(x));
                },
            }
        },
        None => {
            match b {
                Some(y) => {
                    assert(Seq::<u8>::empty() + encode_utf8(y) =~= encode_utf8(y));
                },
                None => {
                    assert(Seq::<u8>::empty() + Seq::<u8>::empty() =~= Seq::<u8>::empty());
                },
            }
        },
    }
}

/// In a well-formed tree an internal node whose two children are present
/// holds the hash of the left child's text followed by the right child's,
/// whether or not the two texts are equal; with only the left child present
/// it holds the hash of that child's text alone.
pub proof fn lemma_internal_node_of_tree(m: Merkle, n: int)
    requires
        m.wf(),
        1 <= n < 8,
    ensures
        m.tree@[2 * n] is Some && m.tree@[2 * n + 1] is Some ==> {
            &&& m.tree@[n] is Some
            &&& m.tree@[n].unwrap()@ == sha3_hex(
                encode_utf8(m.tree@[2 * n].unwrap()@) + encode_utf8(m.tree@[2 * n + 1].unwrap()@),
            )
        },
        m.tree@[2 * n] is Some && m.tree@[2 * n + 1] is None ==> {
            &&& m.tree@[n] is Some
            &&& m.tree@[n].unwrap()@ == sha3_hex(encode_utf8(m.tree@[2 * n].unwrap()@))
        },
        m.tree@[2 * n] is None && m.tree@[2 * n + 1] is None ==> m.tree@[n] is None,
{
    assert(m.node(n) == tree_node(m@, n));
    assert(m.node(2 * n) == tree_node(m@, 2 * n));
    assert(m.node(2 * n + 1) == tree_node(m@, 2 * n + 1));
    lemma_node_hash_digests_children(m.node(2 * n), m.node(2 * n + 1));
}

/// The hashes served for the file at leaf `leaf` are, lowest level first,
/// the sibling of the leaf, the sibling of its parent and the sibling of its
/// grandparent, each exactly when that node is present.
pub proof fn lemma_complement_path_is_present_siblings(files: Seq<Seq<u8>>, leaf: int)
    requires
        8 <= leaf < 16,
    ensures
        complement_path(files, leaf) == (match tree_node(files, if leaf % 2 == 0 { leaf + 1 } else { leaf - 1 }) {
            Some(h) => seq![h],
            None => Seq::<Seq<char>>::empty(),
        }) + (match tree_node(files, if (leaf / 2) % 2 == 0 { leaf / 2 + 1 } else { leaf / 2 - 1 }) {
            Some(h) => seq![h],
            None => Seq::<Seq<char>>::empty(),
        }) + (match tree_node(files, if (leaf / 4) % 2 == 0 { leaf / 4 + 1 } else { leaf / 4 - 1 }) {
            Some(h) => seq![h],
            None => Seq::<Seq<char>>::empty(),
        }),
{
    let c1 = complement_path(files, leaf / 8);
    assert(leaf / 8 == 1);
    assert(c1 =~= Seq::<Seq<char>>::empty());
    let c2 = complement_path(files, leaf / 4);
    assert((leaf / 4) / 2 == leaf / 8);
    let c4 = complement_path(files, leaf / 2);
    assert((leaf / 2) / 2 == leaf / 4);
    let c8 = complement_path(files, leaf);
    assert(c2 == complement_path(files, leaf / 4));
    assert(c8 =~= (match tree_node(files, if leaf % 2 == 0 { leaf + 1 } else { leaf - 1 }) {
        Some(h) => seq![h],
        None => Seq::<Seq<char>>::empty(),
    }) + (match tree_node(files, if (leaf / 2) % 2 == 0 { leaf / 2 + 1 } else { leaf / 2 - 1 }) {
        Some(h) => seq![h],
        None => Seq::<Seq<char>>::empty(),
    }) + (match tree_node(files, if (leaf / 4) % 2 == 0 { leaf / 4 + 1 } else { leaf / 4 - 1 }) {
        Some(h) => seq![h],
        None => Seq::<Seq<char>>::empty(),
    }));
}

/// Every present node of a well-formed tree is 64 characters of hash text.
pub proof fn lemma_node_len(m: Merkle, k: int)
    requires
        m.wf(),
        1 <= k < 16,
    ensures
        tree_node(m@, k) matches Some(h) ==> h.len() == 64,
{
    assert(opt_view(m.tree@[k]) == tree_node(m@, k));
}

/// The tree is a function of the files alone: two well-formed trees that
/// store the same files agree on every node.
pub proof fn lemma_same_files_same_tree(a: Merkle, b: Merkle)
    requires
        a.wf(),
        b.wf(),
        a@ == b@,
    ensures
        forall|k: int| 0 <= k < 16 ==> #[trigger] a.node(k) == b.node(k),
{
    assert forall|k: int| 0 <= k < 16 implies #[trigger] a.node(k) == b.node(k) by {
        if k >= 1 {
            assert(opt_view(b.tree@[k]) == tree_node(b@, k));
        }
    }
}

/// Appending a file leaves every node off the new leaf's path unchanged.
pub proof fn lemma_unaffected(files: Seq<Seq<u8>>, file: Seq<u8>, k: int)
    requires
        files.len() < 8,
        1 <= k < 16,
        k != files.len() + 8,
        !is_ancestor(files.len() + 8int, k),
    ensures
        tree_node(files.push(file), k) == tree_node(files, k),
    decreases 16 - k,
{
    if k < 8 {
        lemma_unaffected(files, file, 2 * k);
        lemma_unaffected(files, file, 2 * k + 1);
    }
}

/// The root is present exactly when some file is stored.
pub proof fn lemma_root_present(files: Seq<Seq<u8>>)
    requires
        files.len() <= 8,
    ensures
        tree_node(files, 1) is Some <==> files.len() > 0,
{
    if files.len() == 0 {
        lemma_empty_tree(1);
        assert(files =~= Seq::<Seq<u8>>::empty());
    } else {
        assert(tree_node(files, 8) is Some);
        assert(tree_node(files, 4) is Some);
        assert(tree_node(files, 2) is Some);
    }
}

/// No node of the tree over no files is present.
pub proof fn lemma_empty_tree(k: int)
    ensures
        tree_node(Seq::<Seq<u8>>::empty(), k) is None,
    decreases 16 - k,
{
    if 1 <= k < 8 {
        lemma_empty_tree(2 * k);
        lemma_empty_tree(2 * k + 1);
    }
}

} // verus!
