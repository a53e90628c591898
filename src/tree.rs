//! Trees whose nodes have any number of children, and their preorder.

use vstd::prelude::*;

verus! {

broadcast use vstd::std_specs::vec::group_vec_axioms;

/// A tree node.
#[derive(Debug)]
pub enum Node<T> {
    /// An inner node: its name and its children, in order.
    NonLeaf((T, Vec<Node<T>>)),
    /// A leaf: its name.
    Leaf(T),
}

/// The names of the tree in preorder: the root, then each subtree in order.
pub open spec fn preorder<T>(n: Node<T>) -> Seq<T>
    decreases n,
{
    match n {
        Node::Leaf(t) => seq![t],
        Node::NonLeaf((t, children)) => seq![t] + preorder_from(children, 0),
    }
}

/// The preorders of `children[i..]`, one after the other.
pub open spec fn preorder_from<T>(children: Vec<Node<T>>, i: int) -> Seq<T>
    decreases children, children@.len() - i,
{
    if 0 <= i < children@.len() {
        preorder(children[i]) + preorder_from(children, i + 1)
    } else {
        seq![]
    }
}

/// Traverses the tree in preorder.
pub fn traverse_preorder<T>(root: Node<T>) -> (r: Vec<T>)
    ensures
        r@ == preorder(root),
    decreases root,
{
    let ghost whole = root;
    match root {
        Node::Leaf(t) => vec![t],
        Node::NonLeaf((t, children)) => {
            let ghost all = children;
            let mut out: Vec<T> = vec![t];
            let mut rest = children;
            let ghost mut i: int = 0;
            assert(rest@ =~= all@.skip(0));
            assert(decreases_to!(whole => whole->NonLeaf_0));
            assert(decreases_to!(whole->NonLeaf_0 => whole->NonLeaf_0.1));
            while rest.len() > 0
                invariant
                    0 <= i <= all@.len(),
                    rest@.len() + i == all@.len(),
                    rest@ == all@.skip(i),
                    whole == Node::NonLeaf((t, all)),
                    decreases_to!(root => all),
                    out@ + preorder_from(all, i) == seq![t] + preorder_from(all, 0),
                decreases rest.len(),
            {
                let child = rest.remove(0);
                assert(child == all@[i]);
                proof {
                    assert(decreases_to!(all => all[i]));
                }
                let mut part = traverse_preorder(child);
                out.append(&mut part);
                proof {
                    assert(preorder_from(all, i) == preorder(all@[i]) + preorder_from(
                        all,
                        i + 1,
                    ));
                }
                proof {
                    i = i + 1;
                }
                assert(rest@ =~= all@.skip(i));
            }
            assert(all@.skip(i).len() == 0);
            assert(out@ + preorder_from(all, i) =~= out@);
            out
        },
    }
}

} // verus!
