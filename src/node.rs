use vstd::prelude::*;

verus! {

/// One entry of a scanned tree: a file, or a directory with its children.
#[derive(Debug)]
pub struct FileNode {
    pub name: String,
    pub path: String,
    pub size: u64,
    pub is_directory: bool,
    /// Sorted by size, largest first.
    pub children: Vec<FileNode>,
    /// Number of immediate children the scan took (entries past a directory's
    /// cap are neither kept nor counted); a pruned view keeps it.
    pub children_count: usize,
    /// False where the children exist but this view does not carry them.
    pub show: bool,
}

/// `out` is `src` cut off below `depth` levels: every field but the children is
/// copied, and at depth zero the children are dropped and `show` is cleared.
pub open spec fn limited(src: FileNode, out: FileNode, depth: nat) -> bool
    decreases depth,
{
    &&& out.name@ == src.name@
    &&& out.path@ == src.path@
    &&& out.size == src.size
    &&& out.is_directory == src.is_directory
    &&& out.children_count == src.children_count
    &&& if depth == 0 {
        &&& out.children@.len() == 0
        &&& !out.show
    } else {
        &&& out.show == src.show
        &&& out.children@.len() == src.children@.len()
        &&& forall|i: int|
            0 <= i < src.children@.len() ==> limited(
                #[trigger] src.children@[i],
                out.children@[i],
                (depth - 1) as nat,
            )
    }
}

impl FileNode {
    /// An independent copy of this node pruned to `max_depth` levels; sizes and
    /// child counts are those of the full tree.
    pub fn limit_depth(&self, max_depth: u32) -> (r: FileNode)
        ensures
            limited(*self, r, max_depth as nat),
        decreases max_depth,
    {
        let mut filtered_node = FileNode {
            name: self.name.clone(),
            path: self.path.clone(),
            size: self.size,
            is_directory: self.is_directory,
            children: Vec::new(),
            children_count: self.children_count,
            show: self.show,
        };
        if max_depth == 0 {
            filtered_node.show = false;
            return filtered_node;
        }
        let n = self.children.len();
        let mut i: usize = 0;
        while i < n
            invariant
                n == self.children@.len(),
                0 < max_depth,
                i <= n,
                filtered_node.name@ == self.name@,
                filtered_node.path@ == self.path@,
                filtered_node.size == self.size,
                filtered_node.is_directory == self.is_directory,
                filtered_node.children_count == self.children_count,
                filtered_node.show == self.show,
                filtered_node.children@.len() == i,
                forall|j: int|
                    0 <= j < i ==> limited(
                        #[trigger] self.children@[j],
                        filtered_node.children@[j],
                        (max_depth - 1) as nat,
                    ),
            decreases n - i,
        {
            let child = self.children[i].limit_depth(max_depth - 1);
            filtered_node.children.push(child);
            i = i + 1;
        }
        filtered_node
    }
}

/// Pruning never changes what a node measures: two views of one node at any
/// two depths carry the node's own size, name, path, kind and child count;
/// only their children differ.
pub proof fn lemma_limit_preserves_size(n: FileNode, a: FileNode, b: FileNode, d1: nat, d2: nat)
    requires
        d1 < d2,
        limited(n, a, d1),
        limited(n, b, d2),
    ensures
        a.size == n.size,
        b.size == n.size,
        a.children_count == b.children_count,
        a.name@ == b.name@,
        a.path@ == b.path@,
        a.is_directory == b.is_directory,
{
}

} // verus!
