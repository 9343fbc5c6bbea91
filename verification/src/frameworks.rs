//! Framework labels: which framework a file belongs to, told by a fragment of its path.
//!
//! Parsing does not consult the table. It is there for a caller that wants to annotate the frames
//! of a trace afterwards.

use crate::text::{chars_of, find_sub, occurs_in};
use vstd::prelude::*;

verus! {

/// The fragments of a path that tell a framework, each with the framework's label, in the order
/// in which they are tried.
pub open spec fn framework_tags() -> Seq<(Seq<char>, Seq<char>)> {
    seq![
        ("node_modules/react"@, "React"@),
        ("node_modules/vue"@, "Vue"@),
        ("node_modules/angular"@, "Angular"@),
    ]
}

/// The label of the first of `tags` whose fragment occurs in `path`. An empty fragment tells
/// nothing.
pub open spec fn label_among(tags: Seq<(Seq<char>, Seq<char>)>, path: Seq<char>) -> Option<
    Seq<char>,
>
    decreases tags.len(),
{
    if tags.len() == 0 {
        None
    } else if tags[0].0.len() > 0 && occurs_in(path, tags[0].0) {
        Some(tags[0].1)
    } else {
        label_among(tags.drop_first(), path)
    }
}

/// The framework that the file at `path` belongs to, if the table tells.
pub open spec fn framework_label(path: Seq<char>) -> Option<Seq<char>> {
    label_among(framework_tags(), path)
}

/// The table of framework labels. It is filled once and only read afterwards.
pub struct FrameworkTable {
    tags: Vec<(String, String)>,
}

impl FrameworkTable {
    /// Every table holds the same tags.
    #[verifier::type_invariant]
    pub closed spec fn holds_the_tags(self) -> bool {
        self.tags.deep_view() == framework_tags()
    }

    /// The table.
    pub fn new() -> (table: Self)
        ensures
            table.holds_the_tags(),
    {
        let mut tags: Vec<(String, String)> = Vec::new();
        tags.push(("node_modules/react".to_owned(), "React".to_owned()));
        tags.push(("node_modules/vue".to_owned(), "Vue".to_owned()));
        tags.push(("node_modules/angular".to_owned(), "Angular".to_owned()));
        assert(tags.deep_view() =~= framework_tags());
        FrameworkTable { tags }
    }

    /// Looks up the framework of the file at `path`.
    pub fn label_for(&self, path: &str) -> (label: Option<String>)
        ensures
            label.deep_view() == framework_label(path@),
    {
        proof {
            use_type_invariant(self);
        }
        let chars = chars_of(path);
        let ghost all = self.tags.deep_view();
        assert(all.skip(0) == all);
        for i in 0..self.tags.len()
            invariant
                all == self.tags.deep_view(),
                all == framework_tags(),
                chars@ == path@,
                label_among(all.skip(i as int), path@) == framework_label(path@),
        {
            let fragment = chars_of(self.tags[i].0.as_str());
            assert(all.skip(i as int).drop_first() == all.skip(i + 1));
            if fragment.len() > 0 && find_sub(chars.as_slice(), fragment.as_slice()).is_some() {
                return Some(self.tags[i].1.clone());
            }
        }
        None
    }
}

} // verus!
