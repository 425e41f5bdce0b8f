//! Which names a transfer takes: those that match a pattern of one set and none of another.
use crate::error::AzcpError;
use crate::text;
use crate::text::{chars_of, owned, split_at_char, string_of, trim};
use globset::{Glob, GlobSet, GlobSetBuilder};
use vstd::prelude::*;

verus! {

#[verifier::external_type_specification]
#[verifier::external_body]
pub struct ExGlobSet(globset::GlobSet);

#[verifier::external_type_specification]
#[verifier::external_body]
pub struct ExGlobSetBuilder(globset::GlobSetBuilder);

/// The patterns of a set.
pub uninterp spec fn set_patterns(s: GlobSet) -> Seq<Seq<char>>;

/// The patterns that a builder was given.
pub uninterp spec fn builder_patterns(b: GlobSetBuilder) -> Seq<Seq<char>>;

/// The text of the error of `globset::Glob::new`, where the pattern is not valid.
pub uninterp spec fn glob_error(pattern: Seq<char>) -> Option<Seq<char>>;

/// The text of the error of `globset::GlobSetBuilder::build`, where the patterns together make
/// no set.
pub uninterp spec fn build_error(patterns: Seq<Seq<char>>) -> Option<Seq<char>>;

/// Whether `globset` finds that a path matches a pattern.
pub uninterp spec fn glob_match(pattern: Seq<char>, path: Seq<char>) -> bool;

/// Calls `globset::GlobSetBuilder::new`: a builder without patterns.
#[verifier::external_body]
pub(crate) fn new_builder() -> (out: GlobSetBuilder)
    ensures
        builder_patterns(out).len() == 0,
{
    GlobSetBuilder::new()
}

/// Calls `globset::Glob::new` and, where the pattern is valid, `GlobSetBuilder::add`: the
/// pattern is then the last one. Whether it is valid, and the text of the error, are functions
/// of the pattern on the platform that the crate is built for, which decides whether `\` is a
/// separator. `Glob::new` calls itself for each brace within a brace, so tens of thousands of
/// braces within each other run out of stack.
#[verifier::external_body]
pub(crate) fn add_pattern(b: &mut GlobSetBuilder, pattern: &str) -> (out: std::result::Result<
    (),
    String,
>)
    ensures
        match out {
            Ok(_) => glob_error(pattern@) is None && builder_patterns(*final(b))
                == builder_patterns(*old(b)).push(pattern@),
            Err(e) => glob_error(pattern@) == Some(e@) && builder_patterns(*final(b))
                == builder_patterns(*old(b)),
        },
{
    match Glob::new(pattern) {
        Ok(g) => {
            b.add(g);
            Ok(())
        },
        Err(e) => Err(e.to_string()),
    }
}

/// Calls `globset::GlobSetBuilder::build`: the set of the patterns that were added. Whether
/// there is one, and the text of the error, are functions of the patterns. `build` gives up with
/// a panic where the patterns together need an automaton of some two thousand million states,
/// which takes more memory than there is.
#[verifier::external_body]
pub(crate) fn build_set(b: &GlobSetBuilder) -> (out: std::result::Result<GlobSet, String>)
    ensures
        match out {
            Ok(s) => build_error(builder_patterns(*b)) is None && set_patterns(s)
                == builder_patterns(*b),
            Err(e) => build_error(builder_patterns(*b)) == Some(e@),
        },
{
    b.build().map_err(|e| e.to_string())
}

/// Whether a path matches one of the patterns.
pub open spec fn any_match(patterns: Seq<Seq<char>>, path: Seq<char>) -> bool {
    exists|i: int| 0 <= i < patterns.len() && #[trigger] glob_match(patterns[i], path)
}

/// Calls `globset::GlobSet::is_match`: whether any pattern of the set matches the path. Whether
/// one does is a function of the two texts on the platform that the crate is built for.
#[verifier::external_body]
pub(crate) fn set_matches(s: &GlobSet, path: &str) -> (out: bool)
    ensures
        out == (exists|i: int|
            0 <= i && i < set_patterns(*s).len() && #[trigger] glob_match(
                set_patterns(*s)[i],
                path@,
            )),
{
    s.is_match(path)
}

/// The patterns of a list: separated by `;`, trimmed, without blank ones.
pub open spec fn listed(pieces: Seq<Seq<char>>) -> Seq<Seq<char>>
    decreases pieces.len(),
{
    if pieces.len() == 0 {
        Seq::empty()
    } else {
        let p = text::trimmed(pieces.last());
        if p.len() == 0 {
            listed(pieces.drop_last())
        } else {
            listed(pieces.drop_last()).push(p)
        }
    }
}

/// The patterns of an option: none where it is missing or blank.
pub open spec fn option_patterns(option: Option<Seq<char>>) -> Option<Seq<Seq<char>>> {
    match option {
        Some(s) => if text::trimmed(s).len() == 0 {
            None
        } else {
            Some(listed(text::split(text::trimmed(s), ';')))
        },
        None => None,
    }
}

/// The first pattern that is not valid.
pub open spec fn first_bad(patterns: Seq<Seq<char>>) -> Option<Seq<char>>
    decreases patterns.len(),
{
    if patterns.len() == 0 {
        None
    } else {
        match first_bad(patterns.drop_last()) {
            Some(p) => Some(p),
            None => if glob_error(patterns.last()) is Some {
                Some(patterns.last())
            } else {
                None
            },
        }
    }
}

/// What is wrong with the patterns.
pub open spec fn pattern_complaint(patterns: Seq<Seq<char>>) -> Option<Seq<char>> {
    match first_bad(patterns) {
        Some(p) => Some("invalid glob `"@ + p + "`: "@ + glob_error(p)->0),
        None => match build_error(patterns) {
            Some(m) => Some("glob set build failed: "@ + m),
            None => None,
        },
    }
}

/// What is wrong with the patterns of an option.
pub open spec fn option_complaint(option: Option<Seq<char>>) -> Option<Seq<char>> {
    match option_patterns(option) {
        Some(p) => pattern_complaint(p),
        None => None,
    }
}

/// Whether a set is the one of an option, or an error what is wrong with its patterns.
pub open spec fn is_option_set(
    out: std::result::Result<Option<GlobSet>, AzcpError>,
    option: Option<Seq<char>>,
) -> bool {
    match option_patterns(option) {
        None => out == std::result::Result::<Option<GlobSet>, AzcpError>::Ok(None),
        Some(p) => match (out, pattern_complaint(p)) {
            (Ok(Some(s)), None) => set_patterns(s) == p,
            (Err(AzcpError::Transfer(e)), Some(m)) => e@ == m,
            _ => false,
        },
    }
}

/// The set of the patterns of an option.
pub fn build_glob_set(patterns: Option<&str>) -> (out: std::result::Result<
    Option<GlobSet>,
    AzcpError,
>)
    ensures
        is_option_set(out, text::opt_str_view(patterns)),
{
    let text = match patterns {
        Some(s) => s,
        None => return Ok(None),
    };
    let chars = chars_of(text);
    let raw = trim(chars.as_slice());
    if raw.len() == 0 {
        return Ok(None);
    }
    let pieces = split_at_char(raw.as_slice(), ';');
    let ghost parts = text::split(raw@, ';');
    let mut builder = new_builder();
    let mut i: usize = 0;
    proof {
        assert(text::pieces(pieces@) == parts);
        assert(parts.len() == pieces@.len());
        assert(parts.take(0) =~= Seq::<Seq<char>>::empty());
        assert(builder_patterns(builder) =~= listed(parts.take(0)));
    }
    while i < pieces.len()
        invariant
            i <= pieces@.len(),
            text::pieces(pieces@) == parts,
            option_patterns(text::opt_str_view(patterns)) == Some(listed(parts)),
            builder_patterns(builder) == listed(parts.take(i as int)),
            first_bad(listed(parts.take(i as int))) is None,
        decreases pieces@.len() - i,
    {
        assert(parts[i as int] == pieces@[i as int]@);
        assert(parts.take(i + 1).drop_last() =~= parts.take(i as int));
        let p = trim(pieces[i].as_slice());
        if p.len() > 0 {
            let pattern = string_of(p.as_slice());
            match add_pattern(&mut builder, pattern.as_str()) {
                Ok(_) => {},
                Err(m) => {
                    let mut e = owned("invalid glob `");
                    e.append(pattern.as_str());
                    e.append("`: ");
                    e.append(m.as_str());
                    proof {
                        let now = listed(parts.take(i + 1));
                        assert(now.drop_last() =~= listed(parts.take(i as int)));
                        assert(first_bad(now) == Some(p@));
                        lemma_first_bad_stays(parts, i + 1);
                    }
                    return Err(AzcpError::Transfer(e));
                },
            }
            assert(listed(parts.take(i + 1)).drop_last() =~= listed(parts.take(i as int)));
        }
        i += 1;
    }
    assert(parts.take(parts.len() as int) =~= parts);
    match build_set(&builder) {
        Ok(s) => Ok(Some(s)),
        Err(m) => {
            let mut e = owned("glob set build failed: ");
            e.append(m.as_str());
            Err(AzcpError::Transfer(e))
        },
    }
}

proof fn lemma_first_bad_stays(parts: Seq<Seq<char>>, n: int)
    requires
        0 <= n <= parts.len(),
        first_bad(listed(parts.take(n))) is Some,
    ensures
        first_bad(listed(parts)) == first_bad(listed(parts.take(n))),
    decreases parts.len() - n,
{
    if n < parts.len() {
        assert(parts.take(n + 1).drop_last() =~= parts.take(n));
        let now = listed(parts.take(n + 1));
        if text::trimmed(parts[n]).len() > 0 {
            assert(now.drop_last() =~= listed(parts.take(n)));
        }
        lemma_first_bad_stays(parts, n + 1);
    } else {
        assert(parts.take(n) =~= parts);
    }
}

/// What a transfer takes.
pub struct Filter {
    pub included: Option<GlobSet>,
    pub excluded: Option<GlobSet>,
}

/// Whether a name passes: it matches a pattern of the first set, where there is one, and none
/// of the second.
pub open spec fn passes(
    included: Option<Seq<Seq<char>>>,
    excluded: Option<Seq<Seq<char>>>,
    name: Seq<char>,
) -> bool {
    &&& included matches Some(p) ==> any_match(p, name)
    &&& excluded matches Some(p) ==> !any_match(p, name)
}

pub open spec fn opt_patterns(s: Option<GlobSet>) -> Option<Seq<Seq<char>>> {
    match s {
        Some(s) => Some(set_patterns(s)),
        None => None,
    }
}

impl Filter {
    pub open spec fn accepts(&self, name: Seq<char>) -> bool {
        passes(opt_patterns(self.included), opt_patterns(self.excluded), name)
    }

    /// The filter of two options.
    pub fn new(include_pattern: Option<&str>, exclude_pattern: Option<&str>) -> (out:
        std::result::Result<Filter, AzcpError>)
        ensures
            match out {
                Ok(f) => is_option_set(Ok(f.included), text::opt_str_view(include_pattern))
                    && is_option_set(Ok(f.excluded), text::opt_str_view(exclude_pattern)),
                Err(e) => if option_complaint(text::opt_str_view(include_pattern)) is Some {
                    is_option_set(Err(e), text::opt_str_view(include_pattern))
                } else {
                    is_option_set(Err(e), text::opt_str_view(exclude_pattern))
                },
            },
    {
        let included = match build_glob_set(include_pattern) {
            Ok(s) => s,
            Err(e) => return Err(e),
        };
        let excluded = match build_glob_set(exclude_pattern) {
            Ok(s) => s,
            Err(e) => return Err(e),
        };
        Ok(Filter { included, excluded })
    }

    /// Whether a name passes.
    pub fn path_matches(&self, relative: &str) -> (out: bool)
        ensures
            out == self.accepts(relative@),
    {
        match &self.included {
            Some(s) => {
                if !set_matches(s, relative) {
                    return false;
                }
            },
            None => {},
        }
        match &self.excluded {
            Some(s) => {
                if set_matches(s, relative) {
                    return false;
                }
            },
            None => {},
        }
        true
    }
}

/// Where no pattern is given, everything passes.
pub proof fn law_no_patterns_take_all(name: Seq<char>)
    ensures
        passes(None, None, name),
{
}

/// An exclusion wins: what matches it does not pass, whatever else it matches.
pub proof fn law_exclusion_wins(
    included: Option<Seq<Seq<char>>>,
    excluded: Seq<Seq<char>>,
    name: Seq<char>,
)
    requires
        any_match(excluded, name),
    ensures
        !passes(included, Some(excluded), name),
{
}

/// The patterns of a list are taken piece by piece: blanks around a pattern do not matter, and a
/// blank piece is none.
pub proof fn law_patterns_go_piece_by_piece(
    a: Seq<Seq<char>>,
    b: Seq<Seq<char>>,
    p: Seq<char>,
)
    ensures
        listed(a + b) == listed(a) + listed(b),
        text::trimmed(p).len() == 0 ==> listed(seq![p]).len() == 0,
        text::trimmed(p).len() > 0 ==> listed(seq![p]) == seq![text::trimmed(p)],
    decreases b.len(),
{
    reveal_with_fuel(listed, 2);
    assert(seq![p].drop_last() =~= Seq::<Seq<char>>::empty());
    if b.len() == 0 {
        assert(a + b =~= a);
        assert(listed(a) + listed(b) =~= listed(a));
    } else {
        law_patterns_go_piece_by_piece(a, b.drop_last(), p);
        assert((a + b).drop_last() =~= a + b.drop_last());
        assert((a + b).last() == b.last());
        assert(listed(a + b) =~= listed(a) + listed(b));
    }
}

proof fn lemma_listed_as_they_are(patterns: Seq<Seq<char>>)
    requires
        forall|i: int|
            0 <= i < patterns.len() ==> (#[trigger] patterns[i]).len() > 0 && text::trimmed(
                patterns[i],
            ) == patterns[i],
    ensures
        listed(patterns) == patterns,
    decreases patterns.len(),
{
    if patterns.len() > 0 {
        let front = patterns.drop_last();
        assert forall|i: int| 0 <= i < front.len() implies (#[trigger] front[i]).len() > 0
            && text::trimmed(front[i]) == front[i] by {
            assert(front[i] == patterns[i]);
        }
        lemma_listed_as_they_are(front);
        assert(patterns[patterns.len() - 1] == patterns.last());
        assert(front.push(patterns.last()) =~= patterns);
    }
}

/// An option that lists patterns with `;` between them has just these patterns, in order. A
/// missing option and a blank one have none.
pub proof fn law_options_list_their_patterns(patterns: Seq<Seq<char>>, blank: Seq<char>)
    requires
        patterns.len() > 0,
        forall|i: int|
            0 <= i < patterns.len() ==> (#[trigger] patterns[i]).len() > 0
                && !patterns[i].contains(';') && !text::is_white(patterns[i][0])
                && !text::is_white(patterns[i].last()),
        text::all_white(blank),
    ensures
        option_patterns(Some(text::joined(patterns, seq![';']))) == Some(patterns),
        option_patterns(Some(blank)) is None,
        option_patterns(None) is None,
{
    let all = text::joined(patterns, seq![';']);
    assert forall|i: int| 0 <= i < patterns.len() implies (#[trigger] patterns[i]).len() > 0
        && text::trimmed(patterns[i]) == patterns[i] by {
        text::lemma_trimmed_same(patterns[i]);
    }
    lemma_listed_as_they_are(patterns);
    text::law_join_and_split(patterns, ';');
    lemma_ends_of_joined(patterns);
    text::lemma_trimmed_same(all);
    text::law_trimming_takes_the_white_space(blank, patterns[0], blank);
}

proof fn lemma_ends_of_joined(patterns: Seq<Seq<char>>)
    requires
        patterns.len() > 0,
        forall|i: int| 0 <= i < patterns.len() ==> (#[trigger] patterns[i]).len() > 0,
    ensures
        text::joined(patterns, seq![';']).len() > 0,
        text::joined(patterns, seq![';'])[0] == patterns[0][0],
        text::joined(patterns, seq![';']).last() == patterns.last().last(),
    decreases patterns.len(),
{
    if patterns.len() > 1 {
        let front = patterns.drop_last();
        assert forall|i: int| 0 <= i < front.len() implies (#[trigger] front[i]).len() > 0 by {
            assert(front[i] == patterns[i]);
        }
        lemma_ends_of_joined(front);
        assert(front[0] == patterns[0]);
        assert(patterns[patterns.len() - 1].len() > 0);
    }
}

/// What passes a filter: what matches one of the patterns that were asked for, where any were,
/// and none of those that were excluded.
pub proof fn law_filter_goes_by_its_options(
    filter: Filter,
    wanted: Option<Seq<char>>,
    unwanted: Option<Seq<char>>,
    name: Seq<char>,
)
    requires
        is_option_set(Ok(filter.included), wanted),
        is_option_set(Ok(filter.excluded), unwanted),
    ensures
        filter.accepts(name) <==> (option_patterns(wanted) matches Some(p) ==> exists|i: int|
            0 <= i < p.len() && #[trigger] glob_match(p[i], name)) && (option_patterns(
            unwanted,
        ) matches Some(p) ==> forall|i: int|
            0 <= i < p.len() ==> !(#[trigger] glob_match(p[i], name))),
{
}

/// The pattern that is complained about is the first one that is not valid.
pub proof fn law_first_bad_pattern_is_named(patterns: Seq<Seq<char>>, i: int)
    ensures
        (forall|k: int| 0 <= k < patterns.len() ==> glob_error(#[trigger] patterns[k]) is None)
            ==> first_bad(patterns) is None,
        0 <= i < patterns.len() && glob_error(patterns[i]) is Some && (forall|k: int|
            0 <= k < i ==> glob_error(#[trigger] patterns[k]) is None) ==> first_bad(patterns)
            == Some(patterns[i]) && pattern_complaint(patterns) == Some(
            "invalid glob `"@ + patterns[i] + "`: "@ + glob_error(patterns[i])->0,
        ),
    decreases patterns.len(),
{
    if patterns.len() > 0 {
        let front = patterns.drop_last();
        law_first_bad_pattern_is_named(front, i);
        assert forall|k: int| 0 <= k < front.len() implies front[k] == #[trigger] patterns[k] by {}
        if forall|k: int| 0 <= k < patterns.len() ==> glob_error(#[trigger] patterns[k]) is None {
            assert forall|k: int| 0 <= k < front.len() implies glob_error(
                #[trigger] front[k],
            ) is None by {
                assert(front[k] == patterns[k]);
            }
            assert(patterns[patterns.len() - 1] == patterns.last());
        }
        if 0 <= i < patterns.len() && (forall|k: int|
            0 <= k < i ==> glob_error(#[trigger] patterns[k]) is None) {
            if i < front.len() {
                assert(front[i] == patterns[i]);
                assert forall|k: int| 0 <= k < i implies glob_error(#[trigger] front[k]) is None by {
                    assert(front[k] == patterns[k]);
                }
            } else {
                assert forall|k: int| 0 <= k < front.len() implies glob_error(
                    #[trigger] front[k],
                ) is None by {
                    assert(front[k] == patterns[k]);
                }
            }
        }
    }
}

/// Patterns that are not valid are refused with what is wrong with them, and valid ones are all
/// in the set.
pub proof fn law_bad_patterns_are_refused(
    out: std::result::Result<Option<GlobSet>, AzcpError>,
    option: Option<Seq<char>>,
)
    requires
        is_option_set(out, option),
    ensures
        option_complaint(option) matches Some(m) ==> out is Err && out->Err_0 is Transfer
            && out->Err_0->Transfer_0@ == m,
        option_complaint(option) is None && option_patterns(option) is None ==> out is Ok
            && out->Ok_0 is None,
        option_complaint(option) is None && option_patterns(option) is Some ==> out is Ok
            && out->Ok_0 is Some && set_patterns(out->Ok_0->0) == option_patterns(option)->0,
{
}

/// Where each pattern is valid but they make no set together, that is what is said.
pub proof fn law_sets_that_cannot_be_built(patterns: Seq<Seq<char>>)
    requires
        forall|k: int| 0 <= k < patterns.len() ==> glob_error(#[trigger] patterns[k]) is None,
    ensures
        build_error(patterns) matches Some(m) ==> pattern_complaint(patterns) == Some(
            "glob set build failed: "@ + m,
        ),
        build_error(patterns) is None ==> pattern_complaint(patterns) is None,
{
    law_first_bad_pattern_is_named(patterns, 0);
}

} // verus!
