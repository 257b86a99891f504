//! Assembling a snapshot from the events of a depth-first walk.
//!
//! The walker reports each entry when it meets it (a directory before its
//! contents), reports the end of each directory's listing, and reports the
//! first failure. A failure discards everything built so far: the walk then
//! yields that error and no tree.
use vstd::prelude::*;
use crate::model::{NodeView, wf_node};
use crate::tree::{FNode, FTree, SnapshotError};

verus! {

/// `open` with `n` appended to the children of its last node.
pub open spec fn attach(open: Seq<NodeView>, n: NodeView) -> Seq<NodeView> {
    open.update(
        open.len() - 1,
        NodeView { children: open.last().children.push(n), ..open.last() },
    )
}

pub open spec fn leaf(path: Seq<char>, is_f: bool, modified: u64) -> NodeView {
    NodeView { path, is_f, modified: modified as nat, children: Seq::empty() }
}

/// The state of a walk: the directories entered and not yet closed (outermost
/// first), the finished root, and the first failure.
pub struct Builder {
    pub open: Vec<FNode>,
    pub root: Option<FNode>,
    pub error: Option<SnapshotError>,
}

impl Builder {
    pub open spec fn open_view(&self) -> Seq<NodeView> {
        Seq::new(self.open.len() as nat, |i: int| self.open[i]@)
    }

    pub open spec fn root_view(&self) -> Option<NodeView> {
        match self.root {
            Some(n) => Some(n@),
            None => None,
        }
    }

    pub open spec fn wf(&self) -> bool {
        &&& forall|i: int| 0 <= i < self.open.len()
            ==> wf_node(#[trigger] self.open[i]@) && !self.open[i]@.is_f
        &&& self.root matches Some(n) ==> wf_node(n@)
    }

    /// A walk that has not started.
    pub fn new() -> (r: Builder)
        ensures
            r.wf(),
            r.open_view() == Seq::<NodeView>::empty(),
            r.root is None,
            r.error is None,
    {
        let r = Builder { open: Vec::new(), root: None, error: None };
        assert(r.open_view() =~= Seq::<NodeView>::empty());
        r
    }

    fn attach_node(&mut self, n: FNode)
        requires
            old(self).wf(),
            wf_node(n@),
        ensures
            final(self).wf(),
            final(self).error == old(self).error,
            old(self).open.len() > 0 ==> final(self).open_view() == attach(old(self).open_view(), n@)
                && final(self).root_view() == old(self).root_view(),
            old(self).open.len() == 0 ==> final(self).open_view() == old(self).open_view()
                && final(self).root_view() == Some(n@),
    {
        if self.open.len() > 0 {
            let ghost ov = self.open_view();
            let mut top = self.open.pop().unwrap();
            assert(top@ == ov.last());
            top.add(n);
            self.open.push(top);
            assert(self.open_view() =~= attach(ov, n@)) by {
                assert forall|i: int| 0 <= i < ov.len() - 1 implies self.open_view()[i] == ov[i] by {
                    assert(self.open[i] == old(self).open[i]);
                }
            }
            assert forall|i: int| 0 <= i < self.open.len()
                implies wf_node(#[trigger] self.open[i]@) && !self.open[i]@.is_f by {
                if i < self.open.len() - 1 {
                    assert(self.open[i] == old(self).open[i]);
                }
            }
        } else {
            self.root = Some(n);
        }
    }

    /// Records an entry that the walk has met: a file is complete at once; a
    /// directory stays open until `close_dir`. Ignored after a failure.
    pub fn entry(&mut self, path: String, is_f: bool, modified: u64)
        requires
            old(self).wf(),
        ensures
            final(self).wf(),
            final(self).error == old(self).error,
            old(self).error is Some ==> final(self).open_view() == old(self).open_view()
                && final(self).root_view() == old(self).root_view(),
            old(self).error is None && !is_f ==> final(self).open_view()
                == old(self).open_view().push(leaf(path@, false, modified))
                && final(self).root_view() == old(self).root_view(),
            old(self).error is None && is_f && old(self).open.len() > 0 ==> final(self).open_view()
                == attach(old(self).open_view(), leaf(path@, true, modified))
                && final(self).root_view() == old(self).root_view(),
            old(self).error is None && is_f && old(self).open.len() == 0
                ==> final(self).open_view() == old(self).open_view()
                && final(self).root_view() == Some(leaf(path@, true, modified)),
    {
        if self.error.is_some() {
            return;
        }
        let ghost p = path@;
        let n = FNode::new(path, is_f, modified);
        assert(n@ == leaf(p, is_f, modified));
        if is_f {
            self.attach_node(n);
        } else {
            let ghost ov = self.open_view();
            self.open.push(n);
            assert(self.open_view() =~= ov.push(leaf(p, false, modified))) by {
                assert forall|i: int| 0 <= i < ov.len() implies self.open_view()[i] == ov[i] by {
                    assert(self.open[i] == old(self).open[i]);
                }
            }
            assert forall|i: int| 0 <= i < self.open.len()
                implies wf_node(#[trigger] self.open[i]@) && !self.open[i]@.is_f by {
                if i < self.open.len() - 1 {
                    assert(self.open[i] == old(self).open[i]);
                }
            }
        }
    }

    /// Records the end of the innermost open directory's listing: it becomes a
    /// child of the directory around it, or the root. Ignored after a failure
    /// or when no directory is open.
    pub fn close_dir(&mut self)
        requires
            old(self).wf(),
        ensures
            final(self).wf(),
            final(self).error == old(self).error,
            old(self).error is Some || old(self).open.len() == 0 ==> final(self).open_view()
                == old(self).open_view() && final(self).root_view() == old(self).root_view(),
            old(self).error is None && old(self).open.len() > 1 ==> final(self).open_view()
                == attach(old(self).open_view().drop_last(), old(self).open_view().last())
                && final(self).root_view() == old(self).root_view(),
            old(self).error is None && old(self).open.len() == 1 ==> final(self).open_view()
                == Seq::<NodeView>::empty() && final(self).root_view() == Some(old(self).open_view()[0]),
    {
        if self.error.is_some() || self.open.len() == 0 {
            return;
        }
        let ghost ov = self.open_view();
        let top = self.open.pop().unwrap();
        assert(top@ == ov.last());
        assert(self.open_view() =~= ov.drop_last()) by {
            assert forall|i: int| 0 <= i < ov.len() - 1 implies self.open_view()[i] == ov[i] by {
                assert(self.open[i] == old(self).open[i]);
            }
        }
        assert(self.wf()) by {
            assert forall|i: int| 0 <= i < self.open.len()
                implies wf_node(#[trigger] self.open[i]@) && !self.open[i]@.is_f by {
                assert(self.open[i] == old(self).open[i]);
            }
        }
        self.attach_node(top);
    }

    /// Records a failure of the walk. The first one is kept and everything
    /// built so far is discarded.
    pub fn fail(&mut self, e: SnapshotError)
        requires
            old(self).wf(),
        ensures
            final(self).wf(),
            final(self).error == if old(self).error is Some { old(self).error } else { Some(e) },
            old(self).error is None ==> final(self).open_view() == Seq::<NodeView>::empty()
                && final(self).root is None,
    {
        if self.error.is_none() {
            self.error = Some(e);
            self.open = Vec::new();
            self.root = None;
            assert(self.open_view() =~= Seq::<NodeView>::empty());
        }
    }

    /// The outcome of the walk: the first failure if there was one; else the
    /// tree, once every directory has been closed; else an error saying that
    /// the walk ended inside a directory or met nothing.
    pub fn finish(self) -> (r: Result<FTree, SnapshotError>)
        requires
            self.wf(),
        ensures
            self.error matches Some(e) ==> r == Err::<FTree, SnapshotError>(e),
            r is Ok <==> self.error is None && self.open.len() == 0 && self.root is Some,
            r matches Ok(t) ==> t.wf() && Some(t.root@) == self.root_view(),
    {
        match self.error {
            Some(e) => Err(e),
            None => {
                if self.open.len() != 0 {
                    return Err(SnapshotError::IOErr("the walk ended inside a directory".to_owned()));
                }
                match self.root {
                    Some(n) => Ok(FTree::new(n)),
                    None => Err(SnapshotError::IOErr("the walk met no entry".to_owned())),
                }
            },
        }
    }
}

} // verus!
