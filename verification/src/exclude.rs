//! Hierarchical path patterns and their evaluation against entry names.
//!
//! A pattern is a sequence of segments, one per `/`-delimited part of its
//! text. A segment is either a wildcard or a sequence of `.`-delimited
//! tokens, each of which is a wildcard or a literal.

use vstd::prelude::*;
use vstd::slice::slice_subrange;
use vstd::slice::slice_to_vec;
use crate::text::chars;
use crate::text::parts_view;
use crate::text::split;
use crate::text::split_chars;
use crate::text::lemma_split_nonempty;
use crate::text::lemma_split_join;
use crate::text::lemma_split_push;
use crate::text::lemma_split_whole;

verus! {

/// One `.`-delimited unit of a segment.
pub ghost enum Token {
    /// Matches any part.
    Any,
    /// Matches exactly this part.
    Literal(Seq<char>),
}

/// One `/`-delimited unit of a pattern.
pub ghost enum Segment {
    /// Matches any entry name.
    Any,
    /// Matches names with as many dot-parts as tokens, part by part.
    Tokenized(Seq<Token>),
}

/// What one pattern says of one entry name.
pub ghost enum Outcome {
    /// The head segment matched and it was the last one.
    Exact,
    /// The head segment matched; the remaining segments are carried.
    Partial(Seq<Segment>),
    /// The head segment did not match.
    No,
}

/// What a collection of patterns says of one entry name.
pub ghost enum CollectionOutcome {
    /// Some pattern matched exactly; the residual patterns are carried.
    Exact(Seq<Seq<Segment>>),
    /// No pattern matched exactly but some matched partially.
    Partial(Seq<Seq<Segment>>),
    /// No pattern matched.
    No,
}

/// The token that a dot-part of a pattern stands for.
pub open spec fn parse_token(s: Seq<char>) -> Token {
    if s == seq!['*'] {
        Token::Any
    } else {
        Token::Literal(s)
    }
}

/// The segment that a slash-part of a pattern stands for.
pub open spec fn parse_segment(s: Seq<char>) -> Segment {
    if s.len() == 0 || s == seq!['*'] || s == seq!['.'] {
        Segment::Any
    } else {
        Segment::Tokenized(split(s, '.').map_values(|p: Seq<char>| parse_token(p)))
    }
}

/// The pattern that a text stands for.
pub open spec fn parse_pattern(s: Seq<char>) -> Seq<Segment> {
    split(s, '/').map_values(|p: Seq<char>| parse_segment(p))
}

/// Whether a token admits a dot-part of a name.
pub open spec fn token_matches(t: Token, part: Seq<char>) -> bool {
    match t {
        Token::Any => true,
        Token::Literal(s) => part == s,
    }
}

/// Whether a segment admits a name.
pub open spec fn segment_matches(seg: Segment, name: Seq<char>) -> bool {
    match seg {
        Segment::Any => true,
        Segment::Tokenized(tokens) => {
            let parts = split(name, '.');
            &&& parts.len() == tokens.len()
            &&& forall|i: int| 0 <= i < tokens.len() ==> token_matches(#[trigger] tokens[i], parts[i])
        },
    }
}

/// The last `/`-delimited component of a name.
pub open spec fn base_name(name: Seq<char>) -> Seq<char> {
    split(name, '/').last()
}

/// The pattern that admits everything: a single wildcard segment.
pub open spec fn universal() -> Seq<Segment> {
    seq![Segment::Any]
}

/// The outcome of matching the head segment of `pattern` against `name`.
pub open spec fn match_head(pattern: Seq<Segment>, name: Seq<char>) -> Outcome
    recommends
        pattern.len() >= 1,
{
    if !segment_matches(pattern[0], base_name(name)) {
        Outcome::No
    } else if pattern.len() == 1 {
        Outcome::Exact
    } else {
        Outcome::Partial(pattern.drop_first())
    }
}

/// The residual patterns that `patterns` leave for the level below `name`,
/// in the order of the patterns they come from.
pub open spec fn residuals(patterns: Seq<Seq<Segment>>, name: Seq<char>) -> Seq<Seq<Segment>>
    decreases patterns.len(),
{
    if patterns.len() == 0 {
        Seq::empty()
    } else {
        let init = residuals(patterns.drop_last(), name);
        match match_head(patterns.last(), name) {
            Outcome::Exact => init.push(universal()),
            Outcome::Partial(rest) => init.push(rest),
            Outcome::No => init,
        }
    }
}

/// Whether some pattern of the collection matches `name` exactly.
pub open spec fn has_exact(patterns: Seq<Seq<Segment>>, name: Seq<char>) -> bool {
    exists|i: int| 0 <= i < patterns.len() && #[trigger] match_head(patterns[i], name) is Exact
}

/// The verdict of a collection of patterns on `name`.
pub open spec fn match_collection(patterns: Seq<Seq<Segment>>, name: Seq<char>) -> CollectionOutcome {
    let rest = residuals(patterns, name);
    if rest.len() == 0 {
        CollectionOutcome::No
    } else if has_exact(patterns, name) {
        CollectionOutcome::Exact(rest)
    } else {
        CollectionOutcome::Partial(rest)
    }
}

/// Matching is a function of the pattern and the name alone: two
/// evaluations of the same pair give the same outcome.
pub proof fn lemma_match_head_deterministic(
    pattern: Seq<Segment>,
    name: Seq<char>,
    first: Outcome,
    second: Outcome,
)
    requires
        first == match_head(pattern, name),
        second == match_head(pattern, name),
    ensures
        first == second,
{
}

/// A wildcard head segment absorbs every name: the outcome never is `No`,
/// whatever the name holds.
pub proof fn lemma_any_segment_absorbs(pattern: Seq<Segment>, name: Seq<char>)
    requires
        pattern.len() >= 1,
        pattern[0] is Any,
    ensures
        pattern.len() == 1 ==> match_head(pattern, name) == Outcome::Exact,
        pattern.len() > 1 ==> match_head(pattern, name) == Outcome::Partial(pattern.drop_first()),
{
}

/// A wildcard token absorbs its dot-part: whether a tokenized segment
/// admits a name does not depend on the part that faces a wildcard.
pub proof fn lemma_any_token_absorbs(tokens: Seq<Token>, name: Seq<char>, k: int)
    requires
        0 <= k < tokens.len(),
        tokens[k] is Any,
    ensures
        segment_matches(Segment::Tokenized(tokens), name) <==> {
            &&& split(name, '.').len() == tokens.len()
            &&& forall|i: int| 0 <= i < tokens.len() && i != k ==> token_matches(#[trigger] tokens[i], split(name, '.')[i])
        },
{
}

/// The pattern `*/*` admits every name at its first level and every name
/// at its second, where it is consumed.
pub proof fn lemma_two_wildcards(first: Seq<char>, second: Seq<char>)
    ensures
        parse_pattern("*/*"@) == seq![Segment::Any, Segment::Any],
        match_head(parse_pattern("*/*"@), first) == Outcome::Partial(universal()),
        match_head(universal(), second) == Outcome::Exact,
{
    reveal_strlit("*/*");
    let text = "*/*"@;
    let e = Seq::<char>::empty();
    assert(text =~= e.push('*').push('/').push('*'));
    assert(split(e, '/') =~= seq![e]);
    lemma_split_push(e, '*', '/');
    assert(split(e.push('*'), '/') =~= seq![seq!['*']]);
    lemma_split_push(e.push('*'), '/', '/');
    assert(split(e.push('*').push('/'), '/') =~= seq![seq!['*'], e]);
    lemma_split_push(e.push('*').push('/'), '*', '/');
    assert(e.push('*') =~= seq!['*']);
    assert(split(text, '/') =~= seq![seq!['*'], seq!['*']]);
    assert(parse_pattern(text) =~= seq![Segment::Any, Segment::Any]);
    assert(parse_pattern(text).drop_first() =~= universal());
}

/// The empty text is the pattern that admits everything.
pub proof fn lemma_empty_text_is_universal()
    ensures
        parse_pattern(Seq::<char>::empty()) == universal(),
{
    let e = Seq::<char>::empty();
    assert(split(e, '/') =~= seq![e]);
    assert(parse_pattern(e) =~= universal());
}

/// Every text is a pattern, with one segment for each of its
/// `/`-delimited parts and so at least one.
pub proof fn lemma_pattern_length(text: Seq<char>)
    ensures
        parse_pattern(text).len() == split(text, '/').len(),
        parse_pattern(text).len() >= 1,
{
    lemma_split_nonempty(text, '/');
}

/// A tokenized segment admits only names with exactly as many dot-parts
/// as it has tokens.
pub proof fn lemma_dot_count_exact(pattern: Seq<Segment>, name: Seq<char>)
    requires
        pattern.len() >= 1,
        pattern[0] is Tokenized,
        split(base_name(name), '.').len() != pattern[0]->Tokenized_0.len(),
    ensures
        match_head(pattern, name) == Outcome::No,
{
}

/// The segment read from a text admits that very text.
pub proof fn lemma_segment_admits_own_text(s: Seq<char>)
    ensures
        segment_matches(parse_segment(s), s),
{
    match parse_segment(s) {
        Segment::Any => {},
        Segment::Tokenized(tokens) => {
            let parts = split(s, '.');
            assert(tokens == parts.map_values(|p: Seq<char>| parse_token(p)));
            assert forall|i: int| 0 <= i < tokens.len() implies token_matches(#[trigger] tokens[i], parts[i]) by {
                assert(tokens[i] == parse_token(parts[i]));
            }
        },
    }
}

/// Following a pattern along the components of its own text consumes it:
/// at each component but the last the outcome is partial and carries the
/// rest of the pattern, and at the last it is exact.
pub proof fn lemma_pattern_admits_own_path(text: Seq<char>, k: int)
    requires
        0 <= k < split(text, '/').len(),
    ensures
        parse_pattern(text).len() == split(text, '/').len(),
        k == split(text, '/').len() - 1 ==> match_head(
            parse_pattern(text).skip(k),
            split(text, '/')[k],
        ) == Outcome::Exact,
        k < split(text, '/').len() - 1 ==> match_head(
            parse_pattern(text).skip(k),
            split(text, '/')[k],
        ) == Outcome::Partial(parse_pattern(text).skip(k + 1)),
{
    let parts = split(text, '/');
    let pattern = parse_pattern(text);
    let rest = pattern.skip(k);
    lemma_split_join(text, '/');
    assert(!parts[k].contains('/'));
    lemma_split_whole(parts[k], '/');
    assert(base_name(parts[k]) == parts[k]);
    lemma_segment_admits_own_text(parts[k]);
    assert(rest[0] == parse_segment(parts[k]));
    assert(rest.drop_first() =~= pattern.skip(k + 1));
}

/// A collection's verdict is `No` exactly when every one of its patterns
/// says `No`.
pub proof fn lemma_no_iff_all_no(patterns: Seq<Seq<Segment>>, name: Seq<char>)
    ensures
        match_collection(patterns, name) is No <==> forall|i: int|
            0 <= i < patterns.len() ==> #[trigger] match_head(patterns[i], name) is No,
    decreases patterns.len(),
{
    if patterns.len() > 0 {
        let init = patterns.drop_last();
        lemma_no_iff_all_no(init, name);
        if match_collection(patterns, name) is No {
            assert forall|i: int| 0 <= i < patterns.len() implies #[trigger] match_head(patterns[i], name) is No by {
                if i < init.len() {
                    assert(init[i] == patterns[i]);
                }
            }
        }
        if forall|i: int| 0 <= i < patterns.len() ==> #[trigger] match_head(patterns[i], name) is No {
            assert forall|i: int| 0 <= i < init.len() implies #[trigger] match_head(init[i], name) is No by {
                assert(init[i] == patterns[i]);
            }
            assert(match_head(patterns[patterns.len() - 1], name) is No);
        }
    }
}

/// A residual pattern is the pattern without its head: one segment
/// shorter, and never empty.
pub proof fn lemma_residual_shorter(pattern: Seq<Segment>, name: Seq<char>)
    requires
        pattern.len() >= 1,
        match_head(pattern, name) is Partial,
    ensures
        match_head(pattern, name)->Partial_0 == pattern.drop_first(),
        match_head(pattern, name)->Partial_0.len() == pattern.len() - 1,
        match_head(pattern, name)->Partial_0.len() >= 1,
{
}

/// The residual patterns of well-formed patterns are well formed: none
/// is empty.
pub proof fn lemma_residuals_nonempty(patterns: Seq<Seq<Segment>>, name: Seq<char>)
    requires
        forall|i: int| 0 <= i < patterns.len() ==> (#[trigger] patterns[i]).len() >= 1,
    ensures
        forall|j: int| 0 <= j < residuals(patterns, name).len() ==> (#[trigger] residuals(patterns, name)[j]).len() >= 1,
        residuals(patterns, name).len() <= patterns.len(),
    decreases patterns.len(),
{
    if patterns.len() > 0 {
        let init = patterns.drop_last();
        assert forall|i: int| 0 <= i < init.len() implies (#[trigger] init[i]).len() >= 1 by {
            assert(init[i] == patterns[i]);
        }
        lemma_residuals_nonempty(init, name);
        assert(patterns[patterns.len() - 1].len() >= 1);
    }
}

/// Where some pattern matches exactly, the verdict is `Exact` and the
/// residual patterns hold the universal pattern.
pub proof fn lemma_exact_leaves_universal(patterns: Seq<Seq<Segment>>, name: Seq<char>)
    requires
        has_exact(patterns, name),
    ensures
        residuals(patterns, name).contains(universal()),
        match_collection(patterns, name) == CollectionOutcome::Exact(residuals(patterns, name)),
    decreases patterns.len(),
{
    let k = choose|k: int| 0 <= k < patterns.len() && #[trigger] match_head(patterns[k], name) is Exact;
    let init = patterns.drop_last();
    let rest = residuals(patterns, name);
    if k == patterns.len() - 1 {
        assert(rest == residuals(init, name).push(universal()));
        assert(rest[rest.len() - 1] == universal());
    } else {
        assert(match_head(init[k], name) is Exact);
        lemma_exact_leaves_universal(init, name);
        let j = choose|j: int| 0 <= j < residuals(init, name).len() && residuals(init, name)[j] == universal();
        assert(rest[j] == universal());
    }
}

/// The kind of a collection's verdict does not depend on the order of
/// its patterns: it is `Exact` when some pattern matches exactly, and
/// `Partial` when none does but some pattern matches partially.
pub proof fn lemma_verdict_kind(patterns: Seq<Seq<Segment>>, name: Seq<char>)
    ensures
        match_collection(patterns, name) is Exact <==> has_exact(patterns, name),
        match_collection(patterns, name) is Partial <==> !has_exact(patterns, name) && exists|i: int|
            0 <= i < patterns.len() && #[trigger] match_head(patterns[i], name) is Partial,
{
    lemma_no_iff_all_no(patterns, name);
    if has_exact(patterns, name) {
        lemma_exact_leaves_universal(patterns, name);
    } else if match_collection(patterns, name) is Partial {
        let k = choose|k: int| 0 <= k < patterns.len() && !(#[trigger] match_head(patterns[k], name) is No);
        assert(!(match_head(patterns[k], name) is Exact));
        assert(match_head(patterns[k], name) is Partial);
    }
}

/// A collection that holds the universal pattern matches every name
/// exactly, and its residual patterns hold the universal pattern again:
/// what is wholly included stays so at every depth.
pub proof fn lemma_universal_persists(patterns: Seq<Seq<Segment>>, name: Seq<char>)
    requires
        patterns.contains(universal()),
    ensures
        match_collection(patterns, name) == CollectionOutcome::Exact(residuals(patterns, name)),
        residuals(patterns, name).contains(universal()),
{
    let k = choose|k: int| 0 <= k < patterns.len() && patterns[k] == universal();
    assert(match_head(patterns[k], name) is Exact);
    lemma_exact_leaves_universal(patterns, name);
}

/// Whether two character slices hold the same characters.
pub fn same_chars(a: &[char], b: &[char]) -> (same: bool)
    ensures
        same == (a@ == b@),
{
    if a.len() != b.len() {
        return false;
    }
    let mut i: usize = 0;
    while i < a.len()
        invariant
            i <= a.len(),
            a.len() == b.len(),
            forall|j: int| 0 <= j < i ==> a@[j] == b@[j],
        decreases a.len() - i,
    {
        if a[i] != b[i] {
            return false;
        }
        i += 1;
    }
    assert(a@ =~= b@);
    true
}

/// A token of a pattern segment.
#[derive(Debug)]
pub enum PathComponent {
    Wildcard,
    Str(Vec<char>),
}

impl View for PathComponent {
    type V = Token;

    open spec fn view(&self) -> Token {
        match self {
            PathComponent::Wildcard => Token::Any,
            PathComponent::Str(s) => Token::Literal(s@),
        }
    }
}

impl PathComponent {
    /// Reads one dot-part of a pattern: `*` is the wildcard, anything else
    /// a literal.
    pub fn from_string(s: &[char]) -> (token: PathComponent)
        ensures
            token@ == parse_token(s@),
    {
        if s.len() == 1 && s[0] == '*' {
            assert(s@ =~= seq!['*']);
            PathComponent::Wildcard
        } else {
            assert(s@ != seq!['*']) by {
                if s@ == seq!['*'] {
                    assert(seq!['*'].len() == 1);
                    assert(seq!['*'][0] == '*');
                }
            }
            PathComponent::Str(slice_to_vec(s))
        }
    }

    /// Whether this token admits the dot-part `f` of a name.
    pub fn matches(&self, f: &[char]) -> (hit: bool)
        ensures
            hit == token_matches(self@, f@),
    {
        match self {
            PathComponent::Wildcard => true,
            PathComponent::Str(s) => same_chars(f, s.as_slice()),
        }
    }
}

/// The tokens that a sequence of executable tokens stands for.
pub open spec fn tokens_of(v: Seq<PathComponent>) -> Seq<Token> {
    v.map_values(|t: PathComponent| t@)
}

/// A segment of a pattern.
#[derive(Debug)]
pub enum Component {
    Wildcard,
    Path(Vec<PathComponent>),
}

impl View for Component {
    type V = Segment;

    open spec fn view(&self) -> Segment {
        match self {
            Component::Wildcard => Segment::Any,
            Component::Path(tokens) => Segment::Tokenized(tokens_of(tokens@)),
        }
    }
}

impl Component {
    /// Reads one slash-part of a pattern: `*`, `.` and the empty text are
    /// the wildcard; anything else is split on `.` into tokens.
    pub fn from_string(s: &[char]) -> (segment: Component)
        ensures
            segment@ == parse_segment(s@),
    {
        if s.len() == 0 {
            return Component::Wildcard;
        }
        if s.len() == 1 && (s[0] == '*' || s[0] == '.') {
            assert(s@ =~= seq!['*'] || s@ =~= seq!['.']);
            return Component::Wildcard;
        }
        assert(s@ != seq!['*'] && s@ != seq!['.']) by {
            assert(seq!['*'].len() == 1 && seq!['*'][0] == '*');
            assert(seq!['.'].len() == 1 && seq!['.'][0] == '.');
        }
        let parts = split_chars(s, '.');
        let mut tokens: Vec<PathComponent> = Vec::new();
        let mut i: usize = 0;
        while i < parts.len()
            invariant
                i <= parts.len(),
                tokens.len() == i,
                forall|j: int| 0 <= j < i ==> (#[trigger] tokens[j])@ == parse_token(parts[j]@),
            decreases parts.len() - i,
        {
            tokens.push(PathComponent::from_string(parts[i].as_slice()));
            i += 1;
        }
        proof {
            let want = split(s@, '.');
            assert(parts_view(parts@) == want);
            assert forall|j: int| 0 <= j < want.len() implies parts[j]@ == #[trigger] want[j] by {
                assert(parts_view(parts@)[j] == parts[j]@);
            }
            assert(tokens_of(tokens@) =~= want.map_values(|p: Seq<char>| parse_token(p)));
        }
        Component::Path(tokens)
    }

    /// Whether this segment admits the entry name `file`.
    pub fn matches(&self, file: &[char]) -> (hit: bool)
        ensures
            hit == segment_matches(self@, file@),
    {
        match self {
            Component::Wildcard => true,
            Component::Path(tokens) => {
                let parts = split_chars(file, '.');
                proof {
                    let want = split(file@, '.');
                    assert(parts_view(parts@) == want);
                    assert forall|j: int| 0 <= j < want.len() implies parts[j]@ == #[trigger] want[j] by {
                        assert(parts_view(parts@)[j] == parts[j]@);
                    }
                }
                if parts.len() != tokens.len() {
                    return false;
                }
                let mut i: usize = 0;
                while i < tokens.len()
                    invariant
                        i <= tokens.len(),
                        parts.len() == tokens.len(),
                        self@ == Segment::Tokenized(tokens_of(tokens@)),
                        split(file@, '.').len() == parts.len(),
                        forall|j: int| 0 <= j < parts.len() ==> parts[j]@ == #[trigger] split(file@, '.')[j],
                        forall|j: int| 0 <= j < i ==> token_matches(#[trigger] tokens_of(tokens@)[j], parts[j]@),
                    decreases tokens.len() - i,
                {
                    if !tokens[i].matches(parts[i].as_slice()) {
                        assert(!token_matches(tokens_of(tokens@)[i as int], split(file@, '.')[i as int]));
                        return false;
                    }
                    i += 1;
                }
                true
            },
        }
    }
}

/// The segments that a sequence of executable segments stands for.
pub open spec fn segments_of(v: Seq<Component>) -> Seq<Segment> {
    v.map_values(|c: Component| c@)
}

/// Where a pattern keeps its segments: in a vector of its own, or as the
/// tail of another pattern's segments.
#[derive(Debug)]
enum Segments<'a> {
    Owned(Vec<Component>),
    Borrowed(&'a [Component]),
}

/// A parsed pattern: at least one segment.
#[derive(Debug)]
pub struct Item<'a> {
    path: Segments<'a>,
}

impl<'a> View for Item<'a> {
    type V = Seq<Segment>;

    closed spec fn view(&self) -> Seq<Segment> {
        segments_of(self.components())
    }
}

/// What one pattern says of one entry name.
#[derive(Debug)]
pub enum Matches<'a> {
    Exact,
    Partial(Item<'a>),
    No,
}

impl<'a> View for Matches<'a> {
    type V = Outcome;

    open spec fn view(&self) -> Outcome {
        match self {
            Matches::Exact => Outcome::Exact,
            Matches::Partial(rest) => Outcome::Partial(rest@),
            Matches::No => Outcome::No,
        }
    }
}

impl<'a> Item<'a> {
    spec fn components(&self) -> Seq<Component> {
        match self.path {
            Segments::Owned(v) => v@,
            Segments::Borrowed(s) => s@,
        }
    }

    #[verifier::type_invariant]
    spec fn well_formed(&self) -> bool {
        self.components().len() >= 1
    }

    /// The number of segments, which is never zero.
    pub fn len(&self) -> (n: usize)
        ensures
            n == self@.len(),
            n >= 1,
    {
        self.segments().len()
    }

    /// Parses the text of a pattern. Every text is a pattern.
    pub fn from_string(str: &str) -> (item: Item<'static>)
        ensures
            item@ == parse_pattern(str@),
    {
        let text = chars(str);
        let parts = split_chars(text.as_slice(), '/');
        let mut components: Vec<Component> = Vec::new();
        let mut i: usize = 0;
        while i < parts.len()
            invariant
                i <= parts.len(),
                components.len() == i,
                forall|j: int| 0 <= j < i ==> (#[trigger] components[j])@ == parse_segment(parts[j]@),
            decreases parts.len() - i,
        {
            components.push(Component::from_string(parts[i].as_slice()));
            i += 1;
        }
        proof {
            let want = split(str@, '/');
            lemma_split_nonempty(str@, '/');
            assert(parts_view(parts@) == want);
            assert forall|j: int| 0 <= j < want.len() implies parts[j]@ == #[trigger] want[j] by {
                assert(parts_view(parts@)[j] == parts[j]@);
            }
            assert(segments_of(components@) =~= parse_pattern(str@));
        }
        Item { path: Segments::Owned(components) }
    }

    fn segments(&self) -> (out: &[Component])
        ensures
            out@ == self.components(),
            segments_of(out@) == self@,
            out@.len() >= 1,
    {
        proof {
            use_type_invariant(self);
        }
        match &self.path {
            Segments::Owned(v) => v.as_slice(),
            Segments::Borrowed(s) => s,
        }
    }

    /// The pattern without its head segment, sharing this pattern's
    /// segments.
    fn slice(&self) -> (rest: Item<'_>)
        requires
            self@.len() > 1,
        ensures
            rest@ == self@.drop_first(),
    {
        let all = self.segments();
        let components = slice_subrange(all, 1, all.len());
        assert(segments_of(components@) =~= segments_of(all@).drop_first());
        Item { path: Segments::Borrowed(components) }
    }

    /// The pattern that admits everything.
    pub fn wildcard() -> (item: Item<'static>)
        ensures
            item@ == universal(),
    {
        let mut components: Vec<Component> = Vec::new();
        components.push(Component::Wildcard);
        assert(segments_of(components@) =~= universal());
        Item { path: Segments::Owned(components) }
    }

    /// Matches the head segment against the last `/`-delimited component
    /// of `file`. A match on the only segment is exact; a match with
    /// segments left carries them.
    pub fn recurse(&self, file: &str) -> (outcome: Matches<'_>)
        ensures
            outcome@ == match_head(self@, file@),
    {
        let all = self.segments();
        let name = chars(file);
        let parts = split_chars(name.as_slice(), '/');
        proof {
            lemma_split_nonempty(file@, '/');
            assert(parts_view(parts@)[parts.len() - 1] == parts[parts.len() - 1]@);
        }
        let base = parts[parts.len() - 1].as_slice();
        if all[0].matches(base) {
            if all.len() == 1 {
                Matches::Exact
            } else {
                Matches::Partial(self.slice())
            }
        } else {
            Matches::No
        }
    }
}

/// The patterns that a sequence of executable patterns stands for.
pub open spec fn patterns_of(v: Seq<Item<'_>>) -> Seq<Seq<Segment>> {
    v.map_values(|p: Item<'_>| p@)
}

/// What a collection of patterns says of one entry name.
#[derive(Debug)]
pub enum CollectionMatches<'a> {
    Exact(Vec<Item<'a>>),
    Partial(Vec<Item<'a>>),
    No,
}

impl<'a> View for CollectionMatches<'a> {
    type V = CollectionOutcome;

    open spec fn view(&self) -> CollectionOutcome {
        match self {
            CollectionMatches::Exact(rest) => CollectionOutcome::Exact(patterns_of(rest@)),
            CollectionMatches::Partial(rest) => CollectionOutcome::Partial(patterns_of(rest@)),
            CollectionMatches::No => CollectionOutcome::No,
        }
    }
}

/// Matches every pattern of `items` against `file` and gathers the
/// residual patterns for the level below, in the order of `items`.
pub fn recurse_collection<'a>(file: &str, items: &'a [Item<'a>]) -> (verdict: CollectionMatches<'a>)
    ensures
        verdict@ == match_collection(patterns_of(items@), file@),
{
    let ghost all = patterns_of(items@);
    let mut exact = false;
    let mut acc: Vec<Item<'a>> = Vec::new();
    let mut i: usize = 0;
    proof {
        assert(all.take(0) =~= Seq::<Seq<Segment>>::empty());
        assert(patterns_of(acc@) =~= residuals(all.take(0), file@));
    }
    while i < items.len()
        invariant
            i <= items.len(),
            all == patterns_of(items@),
            patterns_of(acc@) == residuals(all.take(i as int), file@),
            exact == has_exact(all.take(i as int), file@),
        decreases items.len() - i,
    {
        let ghost before = all.take(i as int);
        let ghost after = all.take(i + 1);
        let ghost old_acc = acc@;
        proof {
            assert(after.drop_last() =~= before);
            assert(after.last() == items[i as int]@);
            if has_exact(before, file@) {
                let k = choose|k: int| 0 <= k < before.len() && #[trigger] match_head(before[k], file@) is Exact;
                assert(match_head(after[k], file@) is Exact);
            }
            if has_exact(after, file@) && !(match_head(after.last(), file@) is Exact) {
                let k = choose|k: int| 0 <= k < after.len() && #[trigger] match_head(after[k], file@) is Exact;
                assert(match_head(before[k], file@) is Exact);
            }
        }
        match items[i].recurse(file) {
            Matches::Exact => {
                exact = true;
                acc.push(Item::wildcard());
                proof {
                    assert(match_head(after[i as int], file@) is Exact);
                    assert(patterns_of(acc@) =~= patterns_of(old_acc).push(universal()));
                }
            },
            Matches::Partial(p) => {
                let ghost rest = p@;
                acc.push(p);
                proof {
                    assert(patterns_of(acc@) =~= patterns_of(old_acc).push(rest));
                }
            },
            Matches::No => (),
        }
        i += 1;
    }
    assert(all.take(items.len() as int) =~= all);
    if acc.is_empty() {
        CollectionMatches::No
    } else {
        if exact {
            CollectionMatches::Exact(acc)
        } else {
            CollectionMatches::Partial(acc)
        }
    }
}

} // verus!
