//! Snapshot nodes and trees, and their canonical text.
use vstd::prelude::*;
use crate::codec::{chars_of, read_node, starts_with_node, write_node};
use crate::lemmas::{lemma_max_list_push, lemma_ser_prefix_free};
use crate::model::{NodeView, max_modified, max_modified_list, ser, wf_node};

verus! {

/// Why a snapshot could not be built or read back.
#[derive(Debug, Clone, PartialEq, Eq)]
pub enum SnapshotError {
    /// The path does not exist.
    NotExists(String),
    /// The directory at the path could not be listed.
    NotReadable(String),
    /// Reading a directory entry failed; holds the cause.
    IOErr(String),
    /// The text is not the canonical text of a tree; holds the reason.
    Malformed(String),
    /// A `$NAME` segment names an unset environment variable.
    MissingEnvVar(String),
}

/// One filesystem entry: its path as captured, whether it is a file, its last
/// modification in whole seconds since the Unix epoch, and (for a directory)
/// its immediate entries in listing order.
pub struct FNode {
    pub path: String,
    pub is_f: bool,
    pub modified: u64,
    pub children: Vec<FNode>,
}

impl FNode {
    pub open spec fn view(&self) -> NodeView
        decreases self,
    {
        NodeView {
            path: self.path@,
            is_f: self.is_f,
            modified: self.modified as nat,
            children: Seq::new(
                self.children.len() as nat,
                |i: int|
                    if 0 <= i < self.children.len() {
                        self.children[i].view()
                    } else {
                        arbitrary()
                    },
            ),
        }
    }

    /// The modification time to record for an entry: the one the filesystem
    /// reported, or, where the platform reports none, the current time `now`,
    /// so that the entry always looks newest.
    pub fn node_time(modified: Option<u64>, now: u64) -> (r: u64)
        ensures
            r == match modified {
                Some(m) => m,
                None => now,
            },
    {
        match modified {
            Some(m) => m,
            None => now,
        }
    }

    /// A node without children: a file, or a directory before its entries are added.
    pub fn new(path: String, is_f: bool, modified: u64) -> (r: FNode)
        ensures
            r@ == (NodeView { path: path@, is_f, modified: modified as nat, children: Seq::empty() }),
            wf_node(r@),
    {
        let r = FNode { path, is_f, modified, children: Vec::new() };
        assert(r@.children =~= Seq::<NodeView>::empty());
        r
    }

    /// Appends an entry to a directory node.
    pub fn add(&mut self, child: FNode)
        requires
            !old(self).is_f,
        ensures
            final(self)@ == (NodeView { children: old(self)@.children.push(child@), ..old(self)@ }),
            wf_node(old(self)@) && wf_node(child@) ==> wf_node(final(self)@),
    {
        self.children.push(child);
        assert(self@.children =~= old(self)@.children.push(child@));
    }

    /// The largest modification time in this node and everything below it.
    pub fn latest(&self) -> (r: u64)
        ensures
            r == max_modified(self@),
        decreases self,
    {
        let mut m: u64 = 0;
        let mut i: usize = 0;
        assert(self@.children.take(0) =~= Seq::<NodeView>::empty());
        while i < self.children.len()
            invariant
                0 <= i <= self.children.len(),
                m == max_modified_list(self@.children.take(i as int)),
            decreases self.children.len() - i,
        {
            let c = self.children[i].latest();
            proof {
                assert(self@.children.take(i + 1) =~= self@.children.take(i as int).push(self@.children[i as int]));
                lemma_max_list_push(self@.children.take(i as int), self@.children[i as int]);
            }
            if c > m {
                m = c;
            }
            i = i + 1;
        }
        assert(self@.children.take(i as int) =~= self@.children);
        if self.modified >= m {
            self.modified
        } else {
            m
        }
    }
}

/// A snapshot: the root node, and the largest modification time in it.
pub struct FTree {
    pub root: FNode,
    pub modified: u64,
}

impl FTree {
    pub open spec fn wf(&self) -> bool {
        &&& wf_node(self.root@)
        &&& self.modified == max_modified(self.root@)
    }

    /// The tree rooted at `root`.
    pub fn new(root: FNode) -> (r: FTree)
        requires
            wf_node(root@),
        ensures
            r.root@ == root@,
            r.wf(),
    {
        let modified = root.latest();
        FTree { root, modified }
    }

    /// The canonical text of the tree.
    pub fn as_string(&self) -> (r: String)
        ensures
            r@ == ser(self.root@),
    {
        let mut out = String::new();
        write_node(&mut out, &self.root);
        out
    }

    /// Reads a tree back from its canonical text. Succeeds exactly when `s` is
    /// the text of a well-formed tree, and then returns that tree.
    pub fn from_string(s: String) -> (r: Result<FTree, SnapshotError>)
        ensures
            r matches Ok(t) ==> t.wf() && ser(t.root@) == s@,
            r matches Err(e) ==> e is Malformed && forall|n: NodeView| wf_node(n) ==> ser(n) != s@,
            forall|n: NodeView| wf_node(n) && ser(n) == s@ ==> (r matches Ok(t) && t.root@ == n),
    {
        let cs = chars_of(s.as_str());
        let res = read_node(&cs, 0);
        proof {
            assert(cs@.subrange(0, cs@.len() as int) =~= s@);
            assert forall|n: NodeView| wf_node(n) && ser(n) == s@ implies starts_with_node(s@) by {
                reveal(starts_with_node);
                assert(s@ == ser((n, Seq::<char>::empty()).0) + (n, Seq::<char>::empty()).1);
            }
        }
        match res {
            Some((n, q)) => {
                if q == cs.len() {
                    proof {
                        assert(cs@.subrange(0, q as int) =~= s@);
                        assert forall|m: NodeView| wf_node(m) && ser(m) == s@ implies m == n@ by {
                            assert(ser(m) + Seq::<char>::empty() =~= ser(n@) + Seq::<char>::empty());
                            lemma_ser_prefix_free(m, Seq::<char>::empty(), n@, Seq::<char>::empty());
                        }
                    }
                    Ok(FTree::new(n))
                } else {
                    proof {
                        assert forall|m: NodeView| wf_node(m) implies ser(m) != s@ by {
                            if ser(m) == s@ {
                                let rest = cs@.subrange(q as int, cs@.len() as int);
                                assert(s@ =~= ser(n@) + rest);
                                assert(ser(m) + Seq::<char>::empty() =~= ser(n@) + rest);
                                lemma_ser_prefix_free(m, Seq::<char>::empty(), n@, rest);
                            }
                        }
                    }
                    Err(SnapshotError::Malformed("text after the end of the root node".to_owned()))
                }
            },
            None => Err(SnapshotError::Malformed("not the text of a node".to_owned())),
        }
    }
}

} // verus!
