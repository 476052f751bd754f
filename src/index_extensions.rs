use vstd::prelude::*;

verus! {

/// The signature of the tree-cache extension of a working-tree index.
pub const TREE_SIGNATURE: [u8; 4] = [84, 82, 69, 69];

/// The signature of the end-of-index-entry extension of a working-tree index.
pub const END_OF_INDEX_ENTRY_SIGNATURE: [u8; 4] = [69, 79, 73, 69];

/// Which extensions to write into a working-tree index.
#[derive(Debug, Clone, Copy, PartialEq, Eq, Structural)]
pub enum Extensions {
    /// All available extensions, so that nothing is lost.
    All,
    /// Only those whose flag is set.
    Given { tree_cache: bool, end_of_index_entry: bool },
    /// None, for the smallest index.
    Nothing,
}

impl Default for Extensions {
    fn default() -> (r: Extensions)
        ensures
            r == Extensions::All,
    {
        Extensions::All
    }
}

/// Whether an extension with `signature` is to be written under `e`.
pub open spec fn writes(e: Extensions, signature: Seq<u8>) -> bool {
    match e {
        Extensions::Nothing => false,
        Extensions::All => true,
        Extensions::Given { tree_cache, end_of_index_entry } => if signature == TREE_SIGNATURE@ {
            tree_cache
        } else if signature == END_OF_INDEX_ENTRY_SIGNATURE@ {
            end_of_index_entry
        } else {
            false
        },
    }
}

impl Extensions {
    /// `Some(signature)` when the extension with that signature is to be written.
    pub fn should_write(&self, signature: [u8; 4]) -> (r: Option<[u8; 4]>)
        ensures
            writes(*self, signature@) ==> r == Some(signature),
            !writes(*self, signature@) ==> r is None,
    {
        match self {
            Extensions::Nothing => None,
            Extensions::All => Some(signature),
            Extensions::Given { tree_cache, end_of_index_entry } => {
                let wanted = if crate::bytes::bytes_equal(&signature, &TREE_SIGNATURE) {
                    *tree_cache
                } else if crate::bytes::bytes_equal(&signature, &END_OF_INDEX_ENTRY_SIGNATURE) {
                    *end_of_index_entry
                } else {
                    false
                };
                if wanted {
                    Some(signature)
                } else {
                    None
                }
            },
        }
    }
}

} // verus!
