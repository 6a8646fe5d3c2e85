//! The decisions of the tree walk: what to do with one directory entry
//! given the include and exclude patterns in force at its level, and how
//! an admitted entry is named in the archive.

use vstd::prelude::*;
use vstd::string::StringExecFns;
use vstd::seq::axiom_seq_subrange_decreases;
use vstd::seq::axiom_seq_index_decreases;
use vstd::std_specs::vec::axiom_vec_decreases_to_view;
use crate::exclude::recurse_collection;
use crate::exclude::match_collection;
use crate::exclude::residuals;
use crate::exclude::universal;
use crate::exclude::lemma_universal_persists;
use crate::exclude::patterns_of;
use crate::exclude::same_chars;
use crate::exclude::CollectionMatches;
use crate::exclude::CollectionOutcome;
use crate::exclude::Item;
use crate::exclude::Segment;
use crate::text::chars;
use crate::text::join;
use crate::text::strings_view;

verus! {

/// What the walk does with one directory entry.
pub ghost enum Decision {
    /// The entry is left out, and nothing beneath it is visited.
    Skip,
    /// The entry is a file and goes into the archive.
    AddFile,
    /// The entry is a directory: it goes into the archive and the walk
    /// descends into it with these patterns.
    AddDirectory { includes: Seq<Seq<Segment>>, excludes: Seq<Seq<Segment>> },
}

/// The names that are never archived, whatever the patterns say.
pub open spec fn is_reserved(name: Seq<char>) -> bool {
    name == ".git"@ || name == ".gitignore"@
}

/// The decision on the entry `name` under the patterns of its level.
///
/// A directory is entered when some include pattern matches it, exactly
/// or partially, and no exclude pattern matches it exactly; the residual
/// patterns of both collections go down with it. A file is added when
/// some include pattern matches it exactly and no exclude pattern does.
pub open spec fn decide(
    name: Seq<char>,
    is_dir: bool,
    includes: Seq<Seq<Segment>>,
    excludes: Seq<Seq<Segment>>,
) -> Decision {
    let included = match_collection(includes, name);
    let excluded = match_collection(excludes, name);
    if is_reserved(name) || included is No || excluded is Exact {
        Decision::Skip
    } else if is_dir {
        Decision::AddDirectory {
            includes: match included {
                CollectionOutcome::Exact(rest) => rest,
                CollectionOutcome::Partial(rest) => rest,
                CollectionOutcome::No => Seq::empty(),
            },
            excludes: match excluded {
                CollectionOutcome::Partial(rest) => rest,
                _ => Seq::empty(),
            },
        }
    } else if included is Exact {
        Decision::AddFile
    } else {
        Decision::Skip
    }
}

/// A reserved name is skipped whatever the patterns say.
pub proof fn lemma_reserved_skipped(
    name: Seq<char>,
    is_dir: bool,
    includes: Seq<Seq<Segment>>,
    excludes: Seq<Seq<Segment>>,
)
    requires
        is_reserved(name),
    ensures
        decide(name, is_dir, includes, excludes) == Decision::Skip,
{
}

/// Once the universal pattern is among the include patterns, which is
/// what an exact match of a directory leaves behind, every entry below is
/// admitted unless its name is reserved or an exclude pattern matches it
/// exactly; and a directory so admitted hands the universal pattern on.
pub proof fn lemma_exact_include_persists(
    name: Seq<char>,
    is_dir: bool,
    includes: Seq<Seq<Segment>>,
    excludes: Seq<Seq<Segment>>,
)
    requires
        includes.contains(universal()),
        !is_reserved(name),
        !(match_collection(excludes, name) is Exact),
    ensures
        !is_dir ==> decide(name, is_dir, includes, excludes) == Decision::AddFile,
        is_dir ==> decide(name, is_dir, includes, excludes) is AddDirectory,
        is_dir ==> decide(name, is_dir, includes, excludes)->includes == residuals(includes, name),
        residuals(includes, name).contains(universal()),
{
    lemma_universal_persists(includes, name);
}

/// An exact match of an exclude pattern is absolute: the entry is skipped
/// whatever the include patterns say, so nothing beneath it is visited.
pub proof fn lemma_exclude_absolute(
    name: Seq<char>,
    is_dir: bool,
    includes: Seq<Seq<Segment>>,
    excludes: Seq<Seq<Segment>>,
)
    requires
        match_collection(excludes, name) is Exact,
    ensures
        decide(name, is_dir, includes, excludes) == Decision::Skip,
{
}

/// A partial match of the exclude patterns does not keep an included
/// entry out: a file is judged by the include patterns alone, and a
/// directory is entered with the residual exclude patterns.
pub proof fn lemma_exclude_narrows(
    name: Seq<char>,
    is_dir: bool,
    includes: Seq<Seq<Segment>>,
    excludes: Seq<Seq<Segment>>,
)
    requires
        !is_reserved(name),
        match_collection(excludes, name) is Partial,
    ensures
        is_dir && !(match_collection(includes, name) is No) ==> decide(name, is_dir, includes, excludes)
            == (Decision::AddDirectory {
            includes: residuals(includes, name),
            excludes: residuals(excludes, name),
        }),
        !is_dir && match_collection(includes, name) is Exact ==> decide(name, is_dir, includes, excludes)
            == Decision::AddFile,
{
}

/// Excluding never lets anything in: what is skipped without exclude
/// patterns is skipped with any.
pub proof fn lemma_exclude_only_prunes(
    name: Seq<char>,
    is_dir: bool,
    includes: Seq<Seq<Segment>>,
    excludes: Seq<Seq<Segment>>,
)
    requires
        decide(name, is_dir, includes, Seq::empty()) == Decision::Skip,
    ensures
        decide(name, is_dir, includes, excludes) == Decision::Skip,
{
    assert(residuals(Seq::<Seq<Segment>>::empty(), name).len() == 0);
}

/// What the walk does with one directory entry.
#[derive(Debug)]
pub enum Step<'a> {
    Skip,
    AddFile,
    AddDirectory { includes: Vec<Item<'a>>, excludes: Vec<Item<'a>> },
}

impl<'a> View for Step<'a> {
    type V = Decision;

    open spec fn view(&self) -> Decision {
        match self {
            Step::Skip => Decision::Skip,
            Step::AddFile => Decision::AddFile,
            Step::AddDirectory { includes, excludes } => Decision::AddDirectory {
                includes: patterns_of(includes@),
                excludes: patterns_of(excludes@),
            },
        }
    }
}

/// Whether `name` is one of the names that are never archived.
pub fn is_ignored(name: &str) -> (ignored: bool)
    ensures
        ignored == is_reserved(name@),
{
    let text = chars(name);
    let git = chars(".git");
    let gitignore = chars(".gitignore");
    same_chars(text.as_slice(), git.as_slice()) || same_chars(text.as_slice(), gitignore.as_slice())
}

/// Decides what to do with the entry `name` of a directory whose level
/// has the patterns `include` and `exclude`.
pub fn visit<'a>(name: &str, is_dir: bool, includes: &'a [Item<'a>], excludes: &'a [Item<'a>]) -> (step: Step<'a>)
    ensures
        step@ == decide(name@, is_dir, patterns_of(includes@), patterns_of(excludes@)),
{
    if is_ignored(name) {
        return Step::Skip;
    }
    let include_matches = recurse_collection(name, includes);
    let exclude_matches = recurse_collection(name, excludes);
    if is_dir {
        match include_matches {
            CollectionMatches::Exact(v) | CollectionMatches::Partial(v) => {
                match exclude_matches {
                    CollectionMatches::Exact(_) => Step::Skip,
                    CollectionMatches::Partial(x) => Step::AddDirectory { includes: v, excludes: x },
                    CollectionMatches::No => {
                        let none: Vec<Item<'a>> = Vec::new();
                        assert(patterns_of(none@) =~= Seq::<Seq<Segment>>::empty());
                        Step::AddDirectory { includes: v, excludes: none }
                    },
                }
            },
            CollectionMatches::No => Step::Skip,
        }
    } else {
        match include_matches {
            CollectionMatches::Exact(_) => {
                match exclude_matches {
                    CollectionMatches::Exact(_) => Step::Skip,
                    _ => Step::AddFile,
                }
            },
            _ => Step::Skip,
        }
    }
}

/// The components of a path that count for an entry's archive name: all
/// but the current-directory marker `.`.
pub open spec fn named_components(components: Seq<Seq<char>>) -> Seq<Seq<char>>
    decreases components.len(),
{
    if components.len() == 0 {
        Seq::empty()
    } else {
        let init = named_components(components.drop_last());
        if components.last() == "."@ {
            init
        } else {
            init.push(components.last())
        }
    }
}

/// The name of an entry in the archive: the components of its path
/// without the `.` markers, joined by `/`.
pub fn file_name(components: &[String]) -> (name: String)
    ensures
        name@ == join(named_components(strings_view(components@)), '/'),
{
    let ghost all = strings_view(components@);
    let dot = chars(".");
    let mut name = String::new();
    let mut first = true;
    let mut i: usize = 0;
    proof {
        reveal_strlit("/");
        assert(all.take(0) =~= Seq::<Seq<char>>::empty());
    }
    while i < components.len()
        invariant
            i <= components.len(),
            all == strings_view(components@),
            dot@ == "."@,
            "/"@ == seq!['/'],
            first == (named_components(all.take(i as int)).len() == 0),
            name@ == join(named_components(all.take(i as int)), '/'),
        decreases components.len() - i,
    {
        let component = components[i].as_str();
        let text = chars(component);
        let ghost before = named_components(all.take(i as int));
        proof {
            assert(all.take(i + 1).drop_last() =~= all.take(i as int));
            assert(all.take(i + 1).last() == component@);
        }
        if !same_chars(text.as_slice(), dot.as_slice()) {
            if !first {
                name.append("/");
            }
            name.append(component);
            first = false;
            proof {
                let after = named_components(all.take(i + 1));
                assert(after == before.push(component@));
                assert(after.drop_last() =~= before);
                if before.len() == 0 {
                    assert(name@ =~= component@);
                } else {
                    assert(name@ =~= join(before, '/').push('/') + component@);
                }
            }
        }
        i += 1;
    }
    assert(all.take(components.len() as int) =~= all);
    name
}

/// What can go wrong while the walk reads the tree and writes the
/// archive.
#[derive(Debug, Clone, Copy)]
pub enum Failure {
    /// A directory cannot be listed.
    DirectoryRead,
    /// One record of a directory's listing cannot be read.
    EntryRead,
    /// The bytes of an admitted file cannot be read.
    FileContentRead,
    /// The archive rejects a write.
    SinkWrite,
}

/// How the walk goes on after a failure.
#[derive(Debug, Clone, Copy)]
pub enum Reaction {
    /// Leave the directory that could not be listed; its siblings and
    /// ancestors are walked as usual.
    AbandonSubtree,
    /// Leave the rest of the listing in which the record was met; the
    /// directories above are walked as usual.
    AbandonListing,
    /// End the whole run.
    Abort,
}

/// The reaction that each failure calls for: failures of listing are
/// confined to the directory they occur in; a file that cannot be read
/// and an archive that cannot be written end the run.
pub open spec fn reaction_to(failure: Failure) -> Reaction {
    match failure {
        Failure::DirectoryRead => Reaction::AbandonSubtree,
        Failure::EntryRead => Reaction::AbandonListing,
        Failure::FileContentRead => Reaction::Abort,
        Failure::SinkWrite => Reaction::Abort,
    }
}

/// Decides how the walk goes on after `failure`.
pub fn react(failure: Failure) -> (reaction: Reaction)
    ensures
        reaction == reaction_to(failure),
        reaction is Abort <==> failure is FileContentRead || failure is SinkWrite,
{
    match failure {
        Failure::DirectoryRead => Reaction::AbandonSubtree,
        Failure::EntryRead => Reaction::AbandonListing,
        Failure::FileContentRead | Failure::SinkWrite => Reaction::Abort,
    }
}

/// An entry of a directory listing held in memory.
#[derive(Debug)]
pub enum Node {
    File { name: String },
    Directory { name: String, entries: Vec<Node> },
}

impl Node {
    /// The entry's own name.
    pub open spec fn name(self) -> Seq<char> {
        match self {
            Node::File { name } => name@,
            Node::Directory { name, .. } => name@,
        }
    }

    /// What a directory holds, in listing order; nothing for a file.
    pub open spec fn children(self) -> Seq<Node> {
        match self {
            Node::File { .. } => Seq::empty(),
            Node::Directory { entries, .. } => entries@,
        }
    }
}

/// An entry as it goes into the archive.
pub ghost struct Admitted {
    pub name: Seq<char>,
    pub is_dir: bool,
}

/// An entry as it goes into the archive.
#[derive(Debug, PartialEq, Eq)]
pub struct Entry {
    /// The entry's path from the root of the walk, joined by `/`.
    pub name: String,
    pub is_dir: bool,
}

impl View for Entry {
    type V = Admitted;

    open spec fn view(&self) -> Admitted {
        Admitted { name: self.name@, is_dir: self.is_dir }
    }
}

/// The entries that a sequence of executable entries stands for.
pub open spec fn entries_of(v: Seq<Entry>) -> Seq<Admitted> {
    v.map_values(|e: Entry| e@)
}

/// The name under which the entry at the path `components` is archived.
pub open spec fn archive_name(components: Seq<Seq<char>>) -> Seq<char> {
    join(named_components(components), '/')
}

/// What the walk of the listing `entries`, found at the path `at`, puts
/// into the archive under the patterns of that level: the admitted
/// entries in listing order, each directory before what it holds.
pub open spec fn selected(
    at: Seq<Seq<char>>,
    entries: Seq<Node>,
    includes: Seq<Seq<Segment>>,
    excludes: Seq<Seq<Segment>>,
) -> Seq<Admitted>
    decreases entries,
    via selected_decreases
{
    if entries.len() == 0 {
        Seq::empty()
    } else {
        let init = selected(at, entries.drop_last(), includes, excludes);
        let node = entries.last();
        let path = at.push(node.name());
        match decide(node.name(), node is Directory, includes, excludes) {
            Decision::Skip => init,
            Decision::AddFile => init.push(Admitted { name: archive_name(path), is_dir: false }),
            Decision::AddDirectory { includes: inner, excludes: outer } => init.push(
                Admitted { name: archive_name(path), is_dir: true },
            ) + selected(path, node.children(), inner, outer),
        }
    }
}

#[via_fn]
proof fn selected_decreases(
    at: Seq<Seq<char>>,
    entries: Seq<Node>,
    includes: Seq<Seq<Segment>>,
    excludes: Seq<Seq<Segment>>,
) {
    if entries.len() > 0 {
        axiom_seq_subrange_decreases(entries, 0, entries.len() - 1);
        if entries.last() is Directory {
            lemma_children_decrease(entries, entries.len() - 1);
        }
    }
}

/// What a listed directory holds is smaller than the listing it is in.
proof fn lemma_children_decrease(entries: Seq<Node>, i: int)
    requires
        0 <= i < entries.len(),
        entries[i] is Directory,
    ensures
        decreases_to!(entries => entries[i].children()),
{
    axiom_seq_index_decreases(entries, i);
    axiom_vec_decreases_to_view(entries[i]->entries);
}

/// Everything in the listing `entries`, found at the path `at`: each
/// entry in listing order, each directory before what it holds.
pub open spec fn listing(at: Seq<Seq<char>>, entries: Seq<Node>) -> Seq<Admitted>
    decreases entries,
    via listing_decreases
{
    if entries.len() == 0 {
        Seq::empty()
    } else {
        let init = listing(at, entries.drop_last());
        let node = entries.last();
        let path = at.push(node.name());
        if node is Directory {
            init.push(Admitted { name: archive_name(path), is_dir: true }) + listing(path, node.children())
        } else {
            init.push(Admitted { name: archive_name(path), is_dir: false })
        }
    }
}

#[via_fn]
proof fn listing_decreases(at: Seq<Seq<char>>, entries: Seq<Node>) {
    if entries.len() > 0 {
        axiom_seq_subrange_decreases(entries, 0, entries.len() - 1);
        if entries.last() is Directory {
            lemma_children_decrease(entries, entries.len() - 1);
        }
    }
}

/// Whether no entry of the listing, at any depth, has a reserved name.
pub open spec fn free_of_reserved(entries: Seq<Node>) -> bool
    decreases entries,
    via free_of_reserved_decreases
{
    entries.len() == 0 || {
        &&& free_of_reserved(entries.drop_last())
        &&& !is_reserved(entries.last().name())
        &&& entries.last() is Directory ==> free_of_reserved(entries.last().children())
    }
}

#[via_fn]
proof fn free_of_reserved_decreases(entries: Seq<Node>) {
    if entries.len() > 0 {
        axiom_seq_subrange_decreases(entries, 0, entries.len() - 1);
        if entries.last() is Directory {
            lemma_children_decrease(entries, entries.len() - 1);
        }
    }
}

/// Each entry of a listing is judged on its own: what the walk takes
/// from two listings put end to end is what it takes from the first
/// followed by what it takes from the second.
pub proof fn lemma_selected_concat(
    at: Seq<Seq<char>>,
    first: Seq<Node>,
    second: Seq<Node>,
    includes: Seq<Seq<Segment>>,
    excludes: Seq<Seq<Segment>>,
)
    ensures
        selected(at, first + second, includes, excludes) == selected(at, first, includes, excludes)
            + selected(at, second, includes, excludes),
    decreases second.len(),
{
    let both = first + second;
    if second.len() == 0 {
        assert(both =~= first);
        assert(selected(at, first, includes, excludes) + Seq::<Admitted>::empty() =~= selected(
            at,
            first,
            includes,
            excludes,
        ));
    } else {
        assert(both.drop_last() =~= first + second.drop_last());
        assert(both.last() == second.last());
        lemma_selected_concat(at, first, second.drop_last(), includes, excludes);
        let head = selected(at, first, includes, excludes);
        let init = selected(at, second.drop_last(), includes, excludes);
        let node = second.last();
        let path = at.push(node.name());
        match decide(node.name(), node is Directory, includes, excludes) {
            Decision::Skip => {},
            Decision::AddFile => {
                let added = Admitted { name: archive_name(path), is_dir: false };
                assert((head + init).push(added) =~= head + init.push(added));
            },
            Decision::AddDirectory { includes: inner, excludes: outer } => {
                let added = Admitted { name: archive_name(path), is_dir: true };
                let beneath = selected(path, node.children(), inner, outer);
                assert((head + init).push(added) + beneath =~= head + (init.push(added) + beneath));
            },
        }
    }
}

/// An entry that an exclude pattern matches exactly contributes nothing
/// to the archive: neither itself nor anything beneath it, whatever the
/// include patterns say.
pub proof fn lemma_excluded_subtree_omitted(
    at: Seq<Seq<char>>,
    node: Node,
    includes: Seq<Seq<Segment>>,
    excludes: Seq<Seq<Segment>>,
)
    requires
        match_collection(excludes, node.name()) is Exact,
    ensures
        selected(at, seq![node], includes, excludes) == Seq::<Admitted>::empty(),
{
    let alone = seq![node];
    assert(alone.len() == 1);
    assert(alone.last() == node);
    assert(alone.drop_last().len() == 0);
    assert(selected(at, alone.drop_last(), includes, excludes) =~= Seq::<Admitted>::empty());
}

/// A directory that is admitted goes into the archive before what it
/// holds, and what it holds is walked under the residual patterns of both
/// collections: a partial match of the exclude patterns narrows what is
/// excluded beneath, and no match leaves nothing excluded there.
pub proof fn lemma_directory_entered(
    at: Seq<Seq<char>>,
    node: Node,
    includes: Seq<Seq<Segment>>,
    excludes: Seq<Seq<Segment>>,
)
    requires
        node is Directory,
        !is_reserved(node.name()),
        !(match_collection(includes, node.name()) is No),
        !(match_collection(excludes, node.name()) is Exact),
    ensures
        selected(at, seq![node], includes, excludes) == seq![
            Admitted { name: archive_name(at.push(node.name())), is_dir: true },
        ] + selected(
            at.push(node.name()),
            node.children(),
            residuals(includes, node.name()),
            residuals(excludes, node.name()),
        ),
{
    let alone = seq![node];
    let none = Seq::<Admitted>::empty();
    let entry = Admitted { name: archive_name(at.push(node.name())), is_dir: true };
    assert(alone.len() == 1);
    assert(alone.last() == node);
    assert(alone.drop_last().len() == 0);
    assert(selected(at, alone.drop_last(), includes, excludes) =~= none);
    assert(none.push(entry) =~= seq![entry]);
    if match_collection(excludes, node.name()) is No {
        assert(residuals(excludes, node.name()) =~= Seq::<Seq<Segment>>::empty());
    }
}

/// Once the universal pattern is among the include patterns, which is
/// what an exact match of a directory leaves behind, the other include
/// patterns no longer matter at any depth: the walk takes what it would
/// take under the universal pattern alone, so only the exclude patterns
/// and the reserved names keep anything out.
pub proof fn lemma_wholly_included(
    at: Seq<Seq<char>>,
    entries: Seq<Node>,
    includes: Seq<Seq<Segment>>,
    excludes: Seq<Seq<Segment>>,
)
    requires
        includes.contains(universal()),
    ensures
        selected(at, entries, includes, excludes) == selected(at, entries, seq![universal()], excludes),
    decreases entries,
{
    let plain = seq![universal()];
    assert(plain[0] == universal());
    if entries.len() > 0 {
        let node = entries.last();
        axiom_seq_subrange_decreases(entries, 0, entries.len() - 1);
        lemma_wholly_included(at, entries.drop_last(), includes, excludes);
        lemma_universal_persists(includes, node.name());
        lemma_universal_persists(plain, node.name());
        if node is Directory {
            lemma_children_decrease(entries, entries.len() - 1);
            let path = at.push(node.name());
            let outer = match match_collection(excludes, node.name()) {
                CollectionOutcome::Partial(rest) => rest,
                _ => Seq::empty(),
            };
            let below = residuals(includes, node.name());
            let below_plain = residuals(plain, node.name());
            lemma_wholly_included(path, node.children(), below, outer);
            lemma_wholly_included(path, node.children(), below_plain, outer);
        }
    }
}

/// Under include patterns that hold the universal pattern, which is what
/// an exact match of a directory leaves behind, and with no exclude
/// pattern in force, the walk takes everything in the listing at every
/// depth, as long as no name in it is reserved.
pub proof fn lemma_whole_listing_selected(
    at: Seq<Seq<char>>,
    entries: Seq<Node>,
    includes: Seq<Seq<Segment>>,
)
    requires
        includes.contains(universal()),
        free_of_reserved(entries),
    ensures
        selected(at, entries, includes, Seq::empty()) == listing(at, entries),
    decreases entries,
{
    if entries.len() > 0 {
        let node = entries.last();
        let none = Seq::<Seq<Segment>>::empty();
        axiom_seq_subrange_decreases(entries, 0, entries.len() - 1);
        lemma_whole_listing_selected(at, entries.drop_last(), includes);
        assert(residuals(none, node.name()).len() == 0);
        lemma_exact_include_persists(node.name(), node is Directory, includes, none);
        if node is Directory {
            lemma_children_decrease(entries, entries.len() - 1);
            lemma_whole_listing_selected(at.push(node.name()), node.children(), residuals(includes, node.name()));
        }
    }
}

/// The path `at` with the component `name` behind it.
pub fn child_path(at: &[String], name: &String) -> (path: Vec<String>)
    ensures
        strings_view(path@) == strings_view(at@).push(name@),
{
    let mut path: Vec<String> = Vec::new();
    let mut i: usize = 0;
    while i < at.len()
        invariant
            i <= at.len(),
            path.len() == i,
            forall|j: int| 0 <= j < i ==> (#[trigger] path[j])@ == at[j]@,
        decreases at.len() - i,
    {
        path.push(at[i].clone());
        i += 1;
    }
    path.push(name.clone());
    assert(strings_view(path@) =~= strings_view(at@).push(name@));
    path
}

/// Walks the listing `entries`, found at the path `at`, and appends to
/// `out` what goes into the archive: every admitted entry in listing
/// order, each directory before what it holds. A directory that is not
/// admitted is not entered.
pub fn crawl<'a>(
    at: &[String],
    entries: &[Node],
    includes: &'a [Item<'a>],
    excludes: &'a [Item<'a>],
    out: &mut Vec<Entry>,
)
    ensures
        entries_of(final(out)@) == entries_of(old(out)@) + selected(
            strings_view(at@),
            entries@,
            patterns_of(includes@),
            patterns_of(excludes@),
        ),
    decreases entries@,
{
    let ghost start = entries_of(out@);
    let ghost here = strings_view(at@);
    let ghost inc = patterns_of(includes@);
    let ghost exc = patterns_of(excludes@);
    let mut i: usize = 0;
    proof {
        assert(entries@.take(0) =~= Seq::<Node>::empty());
        assert(entries_of(out@) =~= start + selected(here, entries@.take(0), inc, exc));
    }
    while i < entries.len()
        invariant
            i <= entries.len(),
            here == strings_view(at@),
            inc == patterns_of(includes@),
            exc == patterns_of(excludes@),
            entries_of(out@) == start + selected(here, entries@.take(i as int), inc, exc),
        decreases entries.len() - i,
    {
        let ghost before = selected(here, entries@.take(i as int), inc, exc);
        let ghost old_out = out@;
        proof {
            assert(entries@.take(i + 1).drop_last() =~= entries@.take(i as int));
            assert(entries@.take(i + 1).last() == entries[i as int]);
        }
        match &entries[i] {
            Node::File { name } => {
                match visit(name.as_str(), false, includes, excludes) {
                    Step::AddFile => {
                        let path = child_path(at, name);
                        let entry = Entry { name: file_name(path.as_slice()), is_dir: false };
                        let ghost added = entry@;
                        out.push(entry);
                        proof {
                            assert(entries_of(out@) =~= entries_of(old_out).push(added));
                            assert(entries_of(out@) =~= start + before.push(added));
                        }
                    },
                    _ => {},
                }
            },
            Node::Directory { name, entries: inner } => {
                match visit(name.as_str(), true, includes, excludes) {
                    Step::AddDirectory { includes: below, excludes: pruned } => {
                        let path = child_path(at, name);
                        let entry = Entry { name: file_name(path.as_slice()), is_dir: true };
                        let ghost added = entry@;
                        out.push(entry);
                        proof {
                            assert(entries_of(out@) =~= entries_of(old_out).push(added));
                            lemma_children_decrease(entries@, i as int);
                        }
                        crawl(path.as_slice(), inner.as_slice(), below.as_slice(), pruned.as_slice(), out);
                        proof {
                            let beneath = selected(
                                strings_view(path@),
                                inner@,
                                patterns_of(below@),
                                patterns_of(pruned@),
                            );
                            assert(entries_of(out@) =~= start + (before.push(added) + beneath));
                        }
                    },
                    _ => {},
                }
            },
        }
        i += 1;
    }
    assert(entries@.take(entries.len() as int) =~= entries@);
}

} // verus!
