use vstd::prelude::*;
use vstd::string::*;
use crate::path::views;

verus! {

broadcast use {vstd::std_specs::vec::group_vec_axioms, vstd::seq::group_seq_axioms};

#[verifier::external_type_specification]
#[verifier::external_body]
pub struct ExRegex(regex::Regex);

#[verifier::external_type_specification]
#[verifier::external_body]
pub struct ExRegexError(regex::Error);

/// Whether the regex engine accepts `source` as a pattern: valid syntax, and a
/// compiled program within the engine's default size limit.
pub uninterp spec fn regex_accepts(source: Seq<char>) -> bool;

/// Whether a regex compiled from `source` matches somewhere in `text`.
pub uninterp spec fn regex_finds(source: Seq<char>, text: Seq<char>) -> bool;

/// The characters that the regex syntax gives a meaning of their own.
pub open spec fn is_regex_meta(c: char) -> bool {
    c == '\\' || c == '.' || c == '+' || c == '*' || c == '?' || c == '(' || c == ')' || c == '|'
        || c == '[' || c == ']' || c == '{' || c == '}' || c == '^' || c == '$' || c == '#' || c == '&'
        || c == '-' || c == '~'
}

/// Text in which every character stands for itself.
pub open spec fn is_literal(s: Seq<char>) -> bool {
    forall|i: int| 0 <= i < s.len() ==> !is_regex_meta(#[trigger] s[i])
}

/// An engine text of the form `^(?:`, literal characters, `)$`.
pub open spec fn anchored_literal(source: Seq<char>) -> bool {
    &&& source.len() >= 6
    &&& source[0] == '^'
    &&& source[1] == '('
    &&& source[2] == '?'
    &&& source[3] == ':'
    &&& source[source.len() - 2] == ')'
    &&& source[source.len() - 1] == '$'
    &&& is_literal(literal_part(source))
}

/// The characters between `^(?:` and `)$`.
pub open spec fn literal_part(source: Seq<char>) -> Seq<char> {
    source.subrange(4, source.len() - 2)
}

/// Whether the compiled `source` matches somewhere in `text`. An anchored
/// literal matches exactly its own characters; any other pattern is left to
/// the engine.
pub open spec fn pattern_finds(source: Seq<char>, text: Seq<char>) -> bool {
    if anchored_literal(source) {
        text == literal_part(source)
    } else {
        regex_finds(source, text)
    }
}

/// The lower-case form of a text, as `str::to_lowercase` gives it.
pub uninterp spec fn lower_of(s: Seq<char>) -> Seq<char>;

/// Relies on `str::to_lowercase`: the Unicode lower-case mapping of each
/// character, which depends on the text alone.
#[verifier::external_body]
fn lowercase(s: &str) -> (r: String)
    ensures
        r@ == lower_of(s@),
{
    s.to_lowercase()
}

/// Relies on `regex::Regex::new`: it returns an error exactly for the
/// patterns that the engine refuses, and the same answer for the same text.
/// Its syntax accepts literal characters, alone or grouped between the
/// anchors, and such a short pattern stays far below the default size limit.
#[verifier::external_body]
fn compile_regex(source: &str) -> (r: Result<regex::Regex, regex::Error>)
    ensures
        r is Ok <==> regex_accepts(source@),
        anchored_literal(source@) && source@.len() <= 256 ==> r is Ok,
        is_literal(source@) && source@.len() <= 256 ==> r is Ok,
{
    regex::Regex::new(source)
}

/// What a pattern is: the text handed to the regex engine, the text the user
/// gave, whether it must match a whole candidate, and whether case is ignored.
pub struct PatternView {
    pub source: Seq<char>,
    pub text: Seq<char>,
    pub full: bool,
    pub ignore_case: bool,
}

/// A compiled matcher. `regex` is always the compilation of `source`: the
/// fields are private and `compile` is the only constructor.
pub struct Pattern {
    source: String,
    text: String,
    full: bool,
    ignore_case: bool,
    regex: regex::Regex,
}

/// A pattern that the regex engine refused.
pub struct PatternError {
    pub pattern: String,
}

impl View for Pattern {
    type V = PatternView;

    closed spec fn view(&self) -> PatternView {
        PatternView {
            source: self.source@,
            text: self.text@,
            full: self.full,
            ignore_case: self.ignore_case,
        }
    }
}

/// Texts that every one is literal and short: such full patterns, with case
/// kept, always compile.
pub open spec fn short_literals(v: Seq<Seq<char>>) -> bool {
    forall|i: int| 0 <= i < v.len() ==> is_literal(#[trigger] v[i]) && v[i].len() <= 250
}

/// Whether a field name is the pattern's text: letter for letter, or after
/// lower-casing both where the pattern ignores case.
pub open spec fn same_name(p: PatternView, name: Seq<char>) -> bool {
    if p.ignore_case {
        lower_of(name) == lower_of(p.text)
    } else {
        name == p.text
    }
}

pub open spec fn case_flag(ignore_case: bool) -> Seq<char> {
    if ignore_case {
        seq!['(', '?', 'i', ')']
    } else {
        Seq::empty()
    }
}

/// The engine text of a pattern that must match the whole candidate: the
/// pattern grouped as a whole between the anchors.
pub open spec fn full_source(p: Seq<char>, ignore_case: bool) -> Seq<char> {
    case_flag(ignore_case) + seq!['^', '(', '?', ':'] + p + seq![')', '$']
}

/// The engine text of a pattern that may match any part of the candidate.
pub open spec fn extended_source(p: Seq<char>, ignore_case: bool) -> Seq<char> {
    case_flag(ignore_case) + p
}

pub open spec fn pattern_spec(p: Seq<char>, full: bool, ignore_case: bool) -> PatternView {
    PatternView {
        source: if full {
            full_source(p, ignore_case)
        } else {
            extended_source(p, ignore_case)
        },
        text: p,
        full,
        ignore_case,
    }
}

pub open spec fn pattern_views(ps: Seq<Pattern>) -> Seq<PatternView> {
    ps.map_values(|p: Pattern| p@)
}

/// The patterns of a run: the full ones, then the extended ones.
pub open spec fn pattern_specs(
    full: Seq<Seq<char>>,
    extended: Seq<Seq<char>>,
    ignore_case: bool,
) -> Seq<PatternView> {
    full.map_values(|p: Seq<char>| pattern_spec(p, true, ignore_case)) + extended.map_values(
        |p: Seq<char>| pattern_spec(p, false, ignore_case),
    )
}

/// Whether the engine accepts a pattern: its text alone, with the case flag
/// it carries, and the engine text built from it.
pub open spec fn accepted(p: PatternView) -> bool {
    regex_accepts(extended_source(p.text, p.ignore_case)) && regex_accepts(p.source)
}

/// Whether the engine accepts every one of the patterns.
pub open spec fn all_accepted(ps: Seq<PatternView>) -> bool {
    forall|i: int| 0 <= i < ps.len() ==> accepted(#[trigger] ps[i])
}

/// The engine refuses the pattern at `i`, and accepts every one before it.
pub open spec fn first_refused(ps: Seq<PatternView>, i: int) -> bool {
    &&& 0 <= i < ps.len()
    &&& !accepted(ps[i])
    &&& forall|j: int| 0 <= j < i ==> accepted(#[trigger] ps[j])
}

impl Pattern {
    /// Compiles `p` into a full pattern (`full`) or an extended one.
    pub fn compile(p: &str, full: bool, ignore_case: bool) -> (r: Result<Pattern, PatternError>)
        ensures
            r is Ok <==> accepted(pattern_spec(p@, full, ignore_case)),
            r matches Ok(pat) ==> pat@ == pattern_spec(p@, full, ignore_case),
            r matches Err(e) ==> e.pattern@ == p@,
            full && !ignore_case && is_literal(p@) && p@.len() <= 250 ==> r is Ok,
    {
        proof {
            reveal_strlit("(?i)");
            reveal_strlit("^(?:");
            reveal_strlit(")$");
            assert("(?i)"@ =~= seq!['(', '?', 'i', ')']);
            assert("^(?:"@ =~= seq!['^', '(', '?', ':']);
            assert(")$"@ =~= seq![')', '$']);
        }
        let mut bare = if ignore_case {
            String::from_str("(?i)")
        } else {
            String::new()
        };
        bare.append(p);
        assert(bare@ == extended_source(p@, ignore_case));
        let checked = compile_regex(bare.as_str());
        if checked.is_err() {
            return Err(PatternError { pattern: String::from_str(p) });
        }
        if !full {
            match checked {
                Ok(regex) => {
                    return Ok(Pattern { source: bare, text: String::from_str(p), full, ignore_case, regex });
                },
                Err(_) => {
                    return Err(PatternError { pattern: String::from_str(p) });
                },
            }
        }
        let mut source = if ignore_case {
            String::from_str("(?i)")
        } else {
            String::new()
        };
        source.append("^(?:");
        source.append(p);
        source.append(")$");
        assert(source@ =~= pattern_spec(p@, full, ignore_case).source);
        if !ignore_case {
            assert(literal_part(source@) =~= p@);
        }
        match compile_regex(source.as_str()) {
            Ok(regex) => Ok(Pattern { source, text: String::from_str(p), full, ignore_case, regex }),
            Err(_) => Err(PatternError { pattern: String::from_str(p) }),
        }
    }

    /// Relies on `regex::Regex::is_match`: whether the compiled `source`
    /// matches somewhere in `text`, the same answer for the same two texts.
    /// By the regex syntax, `^` and `$` (without the multi-line flag) match
    /// only at the start and the end of the text, and a character that is not
    /// a meta character matches itself alone.
    #[verifier::external_body]
    pub(crate) fn finds(&self, text: &str) -> (r: bool)
        ensures
            !anchored_literal(self@.source) ==> r == regex_finds(self@.source, text@),
            anchored_literal(self@.source) ==> (r <==> text@ == literal_part(self@.source)),
    {
        self.regex.is_match(text)
    }

    /// Whether `name` is the pattern's own text, ignoring case where the
    /// pattern does.
    pub fn names(&self, name: &str) -> (r: bool)
        ensures
            r == same_name(self@, name@),
    {
        if self.ignore_case {
            lowercase(name) == lowercase(self.text.as_str())
        } else {
            String::from_str(name) == self.text
        }
    }

    pub fn is_full(&self) -> (r: bool)
        ensures
            r == self@.full,
    {
        self.full
    }
}

fn compile_into(
    out: &mut Vec<Pattern>,
    texts: &Vec<String>,
    full: bool,
    ignore_case: bool,
) -> (r: Result<(), PatternError>)
    ensures
        r is Ok <==> (forall|j: int|
            0 <= j < texts.len() ==> accepted(
                #[trigger] pattern_spec(texts@[j]@, full, ignore_case)
            )),
        r is Ok ==> final(out)@.len() == old(out)@.len() + texts.len(),
        r is Ok ==> forall|k: int|
            0 <= k < old(out)@.len() ==> (#[trigger] final(out)@[k])@ == old(out)@[k]@,
        r is Ok ==> forall|j: int|
            0 <= j < texts.len() ==> (#[trigger] final(out)@[old(out)@.len() + j])@ == pattern_spec(
                texts@[j]@,
                full,
                ignore_case,
            ),
        r matches Err(e) ==> exists|j: int|
            0 <= j < texts.len() && !accepted(
                #[trigger] pattern_spec(texts@[j]@, full, ignore_case)
            ) && (forall|k: int|
                0 <= k < j ==> accepted(
                    #[trigger] pattern_spec(texts@[k]@, full, ignore_case)
                )) && e.pattern@ == texts@[j]@,
        full && !ignore_case && short_literals(views(texts@)) ==> r is Ok,
{
    let ghost n0 = out@.len();
    let mut i: usize = 0;
    while i < texts.len()
        invariant
            i <= texts.len(),
            n0 == old(out)@.len(),
            out@.len() == n0 + i,
            forall|k: int| 0 <= k < n0 ==> (#[trigger] out@[k])@ == old(out)@[k]@,
            forall|j: int|
                0 <= j < i ==> (#[trigger] out@[n0 + j])@ == pattern_spec(texts@[j]@, full, ignore_case),
            forall|j: int|
                0 <= j < i ==> accepted(
                    #[trigger] pattern_spec(texts@[j]@, full, ignore_case)
                ),
        decreases texts.len() - i,
    {
        assert(views(texts@)[i as int] == texts@[i as int]@);
        match Pattern::compile(texts[i].as_str(), full, ignore_case) {
            Ok(p) => {
                out.push(p);
            },
            Err(e) => {
                return Err(e);
            },
        }
        i += 1;
    }
    Ok(())
}

/// Compiles the full patterns, then the extended ones, all with one
/// case-sensitivity setting. Fails on the first pattern the engine refuses.
pub fn compile_patterns(full: &Vec<String>, extended: &Vec<String>, ignore_case: bool) -> (r: Result<
    Vec<Pattern>,
    PatternError,
>)
    ensures
        r is Ok <==> all_accepted(pattern_specs(views(full@), views(extended@), ignore_case)),
        r matches Ok(ps) ==> pattern_views(ps@) == pattern_specs(views(full@), views(extended@), ignore_case),
        r matches Err(e) ==> exists|i: int|
            first_refused(pattern_specs(views(full@), views(extended@), ignore_case), i)
                && e.pattern@ == #[trigger] pattern_specs(views(full@), views(extended@), ignore_case)[i].text,
        !ignore_case && extended.len() == 0 && short_literals(views(full@)) ==> r is Ok,
{
    let ghost specs = pattern_specs(views(full@), views(extended@), ignore_case);
    let ghost nf = full.len() as int;
    assert(forall|j: int| 0 <= j < nf ==> #[trigger] specs[j] == pattern_spec(full@[j]@, true, ignore_case));
    assert(forall|j: int|
        0 <= j < extended.len() ==> #[trigger] specs[nf + j] == pattern_spec(extended@[j]@, false, ignore_case));
    let mut out: Vec<Pattern> = Vec::new();
    match compile_into(&mut out, full, true, ignore_case) {
        Ok(()) => {},
        Err(e) => {
            proof {
                let j = choose|j: int|
                    0 <= j < full.len() && !accepted(
                        #[trigger] pattern_spec(full@[j]@, true, ignore_case)
                    ) && (forall|k: int|
                        0 <= k < j ==> accepted(
                            #[trigger] pattern_spec(full@[k]@, true, ignore_case)
                        )) && e.pattern@ == full@[j]@;
                assert(specs[j] == pattern_spec(full@[j]@, true, ignore_case));
                assert forall|k: int| 0 <= k < j implies accepted(#[trigger] specs[k]) by {
                    assert(specs[k] == pattern_spec(full@[k]@, true, ignore_case));
                }
                assert(first_refused(specs, j));
                assert(e.pattern@ == specs[j].text);
                assert(!all_accepted(specs));
            }
            return Err(e);
        },
    }
    let ghost mid = out@;
    match compile_into(&mut out, extended, false, ignore_case) {
        Ok(()) => {},
        Err(e) => {
            proof {
                let j = choose|j: int|
                    0 <= j < extended.len() && !accepted(
                        #[trigger] pattern_spec(extended@[j]@, false, ignore_case)
                    ) && (forall|k: int|
                        0 <= k < j ==> accepted(
                            #[trigger] pattern_spec(extended@[k]@, false, ignore_case)
                        )) && e.pattern@ == extended@[j]@;
                assert(specs[nf + j] == pattern_spec(extended@[j]@, false, ignore_case));
                assert forall|k: int| 0 <= k < nf + j implies accepted(#[trigger] specs[k]) by {
                    if k < nf {
                        assert(specs[k] == pattern_spec(full@[k]@, true, ignore_case));
                    } else {
                        assert(specs[k] == pattern_spec(extended@[k - nf]@, false, ignore_case));
                    }
                }
                assert(first_refused(specs, nf + j));
                assert(e.pattern@ == specs[nf + j].text);
                assert(!all_accepted(specs));
            }
            return Err(e);
        },
    }
    proof {
        assert(pattern_views(out@) =~= specs) by {
            assert forall|k: int| 0 <= k < specs.len() implies pattern_views(out@)[k] == specs[k] by {
                if k < nf {
                    assert(out@[k]@ == mid[k]@);
                    assert(mid[0 + k]@ == pattern_spec(full@[k]@, true, ignore_case));
                } else {
                    assert(out@[nf + (k - nf)] == out@[k]);
                }
            }
        }
        assert forall|k: int| 0 <= k < specs.len() implies accepted(#[trigger] specs[k]) by {
            if k < nf {
                assert(specs[k] == pattern_spec(full@[k]@, true, ignore_case));
            } else {
                assert(specs[k] == pattern_spec(extended@[k - nf]@, false, ignore_case));
            }
        }
    }
    Ok(out)
}

} // verus!
