//! The request for one archive: where it goes and which patterns select
//! its contents.

use vstd::prelude::*;
use crate::crawler::decide;
use crate::crawler::Decision;
use crate::exclude::has_exact;
use crate::exclude::match_head;
use crate::exclude::lemma_exact_leaves_universal;
use crate::exclude::lemma_pattern_admits_own_path;
use crate::exclude::parse_pattern;
use crate::exclude::patterns_of;
use crate::exclude::Item;
use crate::exclude::Segment;
use crate::text::lemma_split_whole;
use crate::text::split;
use crate::text::strings_view;

verus! {

/// What the user asks for.
#[derive(Debug)]
pub struct Args {
    /// The path of the archive to write.
    pub output: String,
    /// The patterns of the entries to put in. Directories are taken with
    /// all that is beneath them.
    pub inputs: Vec<String>,
    /// The patterns of the entries to leave out.
    pub excludes: Vec<String>,
}

/// The patterns that a sequence of texts stands for.
pub open spec fn parse_all(texts: Seq<Seq<char>>) -> Seq<Seq<Segment>> {
    texts.map_values(|t: Seq<char>| parse_pattern(t))
}

/// Parses each text into a pattern.
pub fn parse_items(texts: &[String]) -> (items: Vec<Item<'static>>)
    ensures
        patterns_of(items@) == parse_all(strings_view(texts@)),
{
    let mut items: Vec<Item<'static>> = Vec::new();
    let mut i: usize = 0;
    while i < texts.len()
        invariant
            i <= texts.len(),
            items.len() == i,
            forall|j: int| 0 <= j < i ==> (#[trigger] items[j])@ == parse_pattern(texts[j]@),
        decreases texts.len() - i,
    {
        items.push(Item::from_string(texts[i].as_str()));
        i += 1;
    }
    assert(patterns_of(items@) =~= parse_all(strings_view(texts@)));
    items
}

/// The archive never takes itself in: with its own path, a plain name,
/// as the last exclude pattern, the entry of that name is skipped
/// whatever the other patterns are.
pub proof fn lemma_output_excluded(
    output: Seq<char>,
    is_dir: bool,
    includes: Seq<Seq<Segment>>,
    excludes: Seq<Seq<char>>,
)
    requires
        !output.contains('/'),
    ensures
        decide(output, is_dir, includes, parse_all(excludes.push(output))) == Decision::Skip,
{
    let patterns = parse_all(excludes.push(output));
    let last = patterns.len() - 1;
    lemma_split_whole(output, '/');
    lemma_pattern_admits_own_path(output, 0);
    assert(split(output, '/')[0] == output);
    assert(parse_pattern(output).skip(0) =~= parse_pattern(output));
    assert(patterns[last] == parse_pattern(output));
    assert(match_head(patterns[last], output) is Exact);
    assert(has_exact(patterns, output));
    lemma_exact_leaves_universal(patterns, output);
}

impl Args {
    /// The patterns that the walk starts with on the including side: one
    /// for each input, in order.
    pub fn include_items(&self) -> (items: Vec<Item<'static>>)
        ensures
            patterns_of(items@) == parse_all(strings_view(self.inputs@)),
    {
        parse_items(self.inputs.as_slice())
    }

    /// The patterns that the walk starts with on the excluding side: one
    /// for each exclusion, in order, and last the archive's own path, so
    /// that the archive never takes itself in.
    pub fn exclude_items(&self) -> (items: Vec<Item<'static>>)
        ensures
            patterns_of(items@) == parse_all(strings_view(self.excludes@).push(self.output@)),
    {
        let mut items = parse_items(self.excludes.as_slice());
        let ghost before = patterns_of(items@);
        let own = Item::from_string(self.output.as_str());
        items.push(own);
        assert(patterns_of(items@) =~= before.push(parse_pattern(self.output@)));
        assert(patterns_of(items@) =~= parse_all(strings_view(self.excludes@).push(self.output@)));
        items
    }
}

} // verus!
