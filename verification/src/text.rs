//! Character-level helpers: reading a string's characters and splitting a
//! character sequence on a separator.

use vstd::prelude::*;
use vstd::std_specs::iter::IteratorSpec;

verus! {

/// The parts of `s` between occurrences of `sep`, in order.
///
/// There is always at least one part; a sequence without `sep` is its own
/// single part, and two adjacent separators enclose an empty part.
pub open spec fn split(s: Seq<char>, sep: char) -> Seq<Seq<char>>
    decreases s.len(),
{
    if s.len() == 0 {
        seq![Seq::<char>::empty()]
    } else {
        let init = split(s.drop_last(), sep);
        if s.last() == sep {
            init.push(Seq::<char>::empty())
        } else {
            init.drop_last().push(init.last().push(s.last()))
        }
    }
}

/// The views of a vector of character vectors.
pub open spec fn parts_view(parts: Seq<Vec<char>>) -> Seq<Seq<char>> {
    Seq::new(parts.len(), |i: int| parts[i]@)
}

/// The views of a sequence of strings.
pub open spec fn strings_view(v: Seq<String>) -> Seq<Seq<char>> {
    v.map_values(|s: String| s@)
}

/// The parts put back together with `sep` between neighbours.
pub open spec fn join(parts: Seq<Seq<char>>, sep: char) -> Seq<char>
    decreases parts.len(),
{
    if parts.len() == 0 {
        Seq::<char>::empty()
    } else if parts.len() == 1 {
        parts[0]
    } else {
        join(parts.drop_last(), sep).push(sep) + parts.last()
    }
}

/// Splitting always yields at least one part.
pub proof fn lemma_split_nonempty(s: Seq<char>, sep: char)
    ensures
        split(s, sep).len() >= 1,
    decreases s.len(),
{
    if s.len() > 0 {
        lemma_split_nonempty(s.drop_last(), sep);
    }
}

/// No part of a split contains the separator, and joining the parts with
/// the separator gives the sequence back.
pub proof fn lemma_split_join(s: Seq<char>, sep: char)
    ensures
        join(split(s, sep), sep) == s,
        forall|i: int| 0 <= i < split(s, sep).len() ==> !(#[trigger] split(s, sep)[i]).contains(sep),
    decreases s.len(),
{
    lemma_split_nonempty(s, sep);
    if s.len() == 0 {
        assert(join(split(s, sep), sep) =~= s);
    } else {
        let init = split(s.drop_last(), sep);
        lemma_split_nonempty(s.drop_last(), sep);
        lemma_split_join(s.drop_last(), sep);
        let out = split(s, sep);
        if s.last() == sep {
            assert(out.drop_last() =~= init);
            assert(join(out, sep) =~= s);
        } else {
            let grown = init.last().push(s.last());
            assert(out.last() == grown);
            if init.len() == 1 {
                assert(join(init, sep) == init[0]);
                assert(join(out, sep) =~= s);
            } else {
                assert(out.drop_last() =~= init.drop_last());
                assert(join(out, sep) =~= (join(init.drop_last(), sep).push(sep) + init.last()).push(s.last()));
                assert(join(out, sep) =~= s);
            }
            assert forall|i: int| 0 <= i < out.len() implies !(#[trigger] out[i]).contains(sep) by {
                if i < out.len() - 1 {
                    assert(out[i] == init[i]);
                } else {
                    assert(!init[i].contains(sep));
                    if grown.contains(sep) {
                        let k = choose|k: int| 0 <= k < grown.len() && grown[k] == sep;
                        assert(init[i][k] == sep);
                    }
                }
            }
        }
    }
}

/// Appending one character either opens a new empty part, when it is
/// the separator, or lengthens the last part.
pub proof fn lemma_split_push(s: Seq<char>, c: char, sep: char)
    ensures
        c == sep ==> split(s.push(c), sep) == split(s, sep).push(Seq::<char>::empty()),
        c != sep ==> split(s.push(c), sep) == split(s, sep).drop_last().push(
            split(s, sep).last().push(c),
        ),
{
    assert(s.push(c).drop_last() =~= s);
}

/// A sequence without the separator is its own single part.
pub proof fn lemma_split_whole(s: Seq<char>, sep: char)
    requires
        !s.contains(sep),
    ensures
        split(s, sep) == seq![s],
    decreases s.len(),
{
    if s.len() == 0 {
        assert(s =~= Seq::<char>::empty());
    } else {
        let init = s.drop_last();
        assert forall|i: int| 0 <= i < init.len() implies init[i] != sep by {
            assert(s[i] == init[i]);
            assert(s.contains(s[i]));
        }
        assert(!init.contains(sep));
        lemma_split_whole(init, sep);
        assert(s[s.len() - 1] == s.last());
        assert(s.last() != sep);
        assert(init.push(s.last()) =~= s);
        assert(seq![init].drop_last() =~= Seq::<Seq<char>>::empty());
        assert(seq![init].last() == init);
        assert(split(s, sep) =~= seq![s]);
    }
}

/// Lengthening the last part by one character lengthens the joined
/// sequence by that character.
pub proof fn lemma_join_push(parts: Seq<Seq<char>>, c: char, sep: char)
    requires
        parts.len() >= 1,
    ensures
        join(parts.drop_last().push(parts.last().push(c)), sep) == join(parts, sep).push(c),
{
    let grown = parts.drop_last().push(parts.last().push(c));
    assert(grown.last() == parts.last().push(c));
    if parts.len() == 1 {
        assert(join(grown, sep) =~= join(parts, sep).push(c));
    } else {
        assert(grown.drop_last() =~= parts.drop_last());
        assert(join(grown, sep) =~= join(parts, sep).push(c));
    }
}

/// Splitting undoes joining: parts that are free of the separator are
/// exactly what splitting their join gives. With `lemma_split_join` this
/// makes splitting and joining inverses of each other.
pub proof fn lemma_split_of_join(parts: Seq<Seq<char>>, sep: char)
    requires
        parts.len() >= 1,
        forall|i: int| 0 <= i < parts.len() ==> !(#[trigger] parts[i]).contains(sep),
    ensures
        split(join(parts, sep), sep) == parts,
    decreases join(parts, sep).len(),
{
    let s = join(parts, sep);
    let last = parts.last();
    if last.len() > 0 {
        let c = last.last();
        let shorter = parts.drop_last().push(last.drop_last());
        assert(last.contains(c)) by {
            assert(last[last.len() - 1] == c);
        }
        assert(!parts[parts.len() - 1].contains(sep));
        assert(shorter.drop_last() =~= parts.drop_last());
        assert(shorter.last().push(c) =~= last);
        lemma_join_push(shorter, c, sep);
        assert(shorter.drop_last().push(shorter.last().push(c)) =~= parts);
        assert(join(shorter, sep).push(c) == s);
        assert forall|i: int| 0 <= i < shorter.len() implies !(#[trigger] shorter[i]).contains(sep) by {
            if i < shorter.len() - 1 {
                assert(shorter[i] == parts[i]);
            } else if shorter[i].contains(sep) {
                let k = choose|k: int| 0 <= k < shorter[i].len() && shorter[i][k] == sep;
                assert(last[k] == sep);
                assert(parts[i].contains(sep));
            }
        }
        lemma_split_of_join(shorter, sep);
        lemma_split_push(join(shorter, sep), c, sep);
    } else if parts.len() == 1 {
        assert(last =~= Seq::<char>::empty());
        assert(parts =~= seq![Seq::<char>::empty()]);
        assert(s =~= Seq::<char>::empty());
    } else {
        let init = parts.drop_last();
        assert(last =~= Seq::<char>::empty());
        assert(s =~= join(init, sep).push(sep));
        assert forall|i: int| 0 <= i < init.len() implies !(#[trigger] init[i]).contains(sep) by {
            assert(init[i] == parts[i]);
        }
        lemma_split_of_join(init, sep);
        lemma_split_push(join(init, sep), sep, sep);
        assert(init.push(Seq::<char>::empty()) =~= parts);
    }
}

/// The characters of a string, in order.
pub fn chars(s: &str) -> (out: Vec<char>)
    ensures
        out@ == s@,
{
    broadcast use vstd::string::group_string_axioms;
    let mut out: Vec<char> = Vec::new();
    let mut it = s.chars();
    loop
        invariant
            it.obeys_prophetic_iter_laws(),
            it.decrease() is Some,
            out@ + it.remaining() == s@,
        ensures
            out@ == s@,
        decreases it.decrease()->0,
    {
        match it.next() {
            Some(c) => {
                let ghost rest = it.remaining();
                out.push(c);
                assert(out@ + rest =~= s@);
            },
            None => {
                assert(out@ + it.remaining() =~= out@);
                break;
            },
        }
    }
    out
}

/// Splits `s` on `sep` into owned parts.
pub fn split_chars(s: &[char], sep: char) -> (out: Vec<Vec<char>>)
    ensures
        parts_view(out@) == split(s@, sep),
{
    let mut done: Vec<Vec<char>> = Vec::new();
    let mut cur: Vec<char> = Vec::new();
    let mut i: usize = 0;
    proof {
        assert(s@.subrange(0, 0) =~= Seq::<char>::empty());
        assert(parts_view(done@).push(cur@) =~= split(s@.subrange(0, 0), sep));
    }
    while i < s.len()
        invariant
            i <= s.len(),
            parts_view(done@).push(cur@) == split(s@.subrange(0, i as int), sep),
        decreases s.len() - i,
    {
        let c = s[i];
        proof {
            let before = s@.subrange(0, i as int);
            let after = s@.subrange(0, i + 1);
            assert(after.drop_last() =~= before);
            assert(after.last() == c);
            assert(parts_view(done@).push(cur@).drop_last() =~= parts_view(done@));
        }
        if c == sep {
            let ghost old_done = done@;
            done.push(cur);
            cur = Vec::new();
            proof {
                assert(parts_view(done@) =~= parts_view(old_done).push(done@.last()@));
            }
        } else {
            cur.push(c);
        }
        i += 1;
    }
    let ghost old_done = done@;
    done.push(cur);
    proof {
        assert(s@.subrange(0, s@.len() as int) =~= s@);
        assert(parts_view(done@) =~= parts_view(old_done).push(done@.last()@));
    }
    done
}

} // verus!
