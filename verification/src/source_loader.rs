//! The blocklist: the set of request paths that the relay turns away.

use crate::line_parser::get_lines;
use crate::text::lines;
use vstd::hash_set::StringHashSet;
use vstd::prelude::*;

verus! {

/// The paths that a blocklist source names: each of its lines, as it stands.
pub open spec fn blocked_paths(source: Seq<char>) -> Set<Seq<char>> {
    Set::new(|path: Seq<char>| lines(source).contains(path))
}

/// A set of exact request paths.
///
/// It is built once, from a source text, and offers no way to change it
/// afterwards, so it can be shared between any number of readers.
pub struct Blocklist {
    paths: StringHashSet,
}

impl View for Blocklist {
    type V = Set<Seq<char>>;

    closed spec fn view(&self) -> Set<Seq<char>> {
        self.paths@
    }
}

impl Blocklist {
    /// Tells whether `path` is blocked: whether it equals one of the listed
    /// paths character for character.
    pub fn contains(&self, path: &str) -> (blocked: bool)
        ensures
            blocked == self@.contains(path@),
    {
        self.paths.contains(path)
    }
}

/// Builds the blocklist that `text`, the content of a blocklist source,
/// describes: one path per line.
///
/// Lines are taken as they stand: nothing is trimmed, and a line that occurs
/// twice counts once.
pub fn load_source(text: &str) -> (list: Blocklist)
    ensures
        list@ == blocked_paths(text@),
{
    let all = get_lines(text);
    let mut paths = StringHashSet::new();
    let mut i: usize = 0;
    while i < all.len()
        invariant
            i <= all.len(),
            all.deep_view() == lines(text@),
            forall|path: Seq<char>|
                paths@.contains(path) <==> exists|k: int|
                    0 <= k < i && #[trigger] lines(text@)[k] == path,
        decreases all.len() - i,
    {
        assert(all.deep_view()[i as int] == all@[i as int]@);
        paths.insert(all[i].to_owned());
        i = i + 1;
    }
    assert(paths@ =~= blocked_paths(text@));
    Blocklist { paths }
}

/// An empty source blocks nothing.
pub proof fn empty_source_blocks_nothing()
    ensures
        blocked_paths(Seq::empty()) == Set::<Seq<char>>::empty(),
{
    assert(blocked_paths(Seq::empty()) =~= Set::<Seq<char>>::empty());
}

/// Lookup is exact: a path is blocked if and only if some line of the source
/// has the same length and the same character in every place. Nothing folds
/// upper and lower case together, and nothing is trimmed or decoded.
pub proof fn lookup_is_exact(source: Seq<char>, path: Seq<char>)
    ensures
        blocked_paths(source).contains(path) <==> exists|k: int|
            0 <= k < lines(source).len() && (#[trigger] lines(source)[k]).len() == path.len()
                && forall|j: int| 0 <= j < path.len() ==> lines(source)[k][j] == path[j],
{
    if blocked_paths(source).contains(path) {
        let k = choose|k: int| 0 <= k < lines(source).len() && lines(source)[k] == path;
        assert(lines(source)[k].len() == path.len());
    }
    if exists|k: int|
        0 <= k < lines(source).len() && (#[trigger] lines(source)[k]).len() == path.len()
            && forall|j: int| 0 <= j < path.len() ==> lines(source)[k][j] == path[j] {
        let k = choose|k: int|
            0 <= k < lines(source).len() && (#[trigger] lines(source)[k]).len() == path.len()
                && forall|j: int| 0 <= j < path.len() ==> lines(source)[k][j] == path[j];
        assert(lines(source)[k] =~= path);
    }
}

} // verus!
