//! A dynamic set of patterns compiled into one matcher, with per-pattern
//! coverage tracking and a diagnostic for malformed patterns.
//!
//! Each pattern is anchored on compilation so that matching means matching
//! the whole candidate string, not a substring.

use vstd::prelude::*;
use vstd::string::StringExecFns;
use crate::text::{chars_of, string_from_chars};

verus! {

broadcast use {crate::views::lemma_vec_deep_view_index, crate::views::lemma_vec_char_deep_view};

#[verifier::external_type_specification]
#[verifier::external_body]
pub struct ExRegexSet(regex::RegexSet);

#[verifier::external_type_specification]
#[verifier::external_body]
pub struct ExRegexError(regex::Error);

/// Whether `regex::RegexSet::new` accepts this pattern list; a function of
/// the pattern texts alone.
pub uninterp spec fn regex_set_compiles(patterns: Seq<Seq<char>>) -> bool;

/// The pattern texts a compiled `regex::RegexSet` was built from.
pub uninterp spec fn compiled_patterns(s: regex::RegexSet) -> Seq<Seq<char>>;

/// The set of indices of the patterns that match the haystack; a function of
/// the pattern texts and the haystack alone.
pub uninterp spec fn regex_match_indices(patterns: Seq<Seq<char>>, text: Seq<char>) -> Set<int>;

/// Relies on `regex::RegexSet::new`: compiles the given patterns into one
/// set; success depends on the pattern texts alone, and the compiled set
/// holds exactly those patterns. On failure the compile error is returned.
#[verifier::external_body]
fn rx_build(patterns: &Vec<String>) -> (r: Result<regex::RegexSet, regex::Error>)
    ensures
        r is Ok <==> regex_set_compiles(patterns.deep_view()),
        r is Ok ==> compiled_patterns(r->Ok_0) == patterns.deep_view(),
{
    regex::RegexSet::new(patterns.iter())
}

/// Relies on `regex::RegexSet::is_match`: true exactly when at least one
/// pattern of the set matches the haystack.
#[verifier::external_body]
fn rx_is_match(set: &regex::RegexSet, s: &str) -> (r: bool)
    ensures
        r == (exists|i: int|
            0 <= i < compiled_patterns(*set).len() && regex_match_indices(
                compiled_patterns(*set),
                s@,
            ).contains(i)),
{
    set.is_match(s)
}

/// Relies on `regex::RegexSet::matches`: the indices of the patterns that
/// match the haystack, each within bounds, jointly exhausting the match set.
#[verifier::external_body]
fn rx_matched_indices(set: &regex::RegexSet, s: &str) -> (r: Vec<usize>)
    ensures
        forall|j: int| 0 <= j < r@.len() ==> r@[j] < compiled_patterns(*set).len(),
        forall|j: int|
            0 <= j < r@.len() ==> regex_match_indices(compiled_patterns(*set), s@).contains(
                r@[j] as int,
            ),
        forall|i: int|
            0 <= i < compiled_patterns(*set).len() && regex_match_indices(
                compiled_patterns(*set),
                s@,
            ).contains(i) ==> exists|j: int| 0 <= j < r@.len() && r@[j] as int == i,
{
    set.matches(s).iter().collect()
}

/// A compile error's text, by variant.
#[derive(Clone, PartialEq, Eq, Debug)]
pub enum RegexErrorText {
    Syntax { text: String },
    Other { text: String },
}

/// The mathematical value of a [`RegexErrorText`].
#[verifier::ext_equal]
pub enum RegexErrorTextV {
    Syntax { text: Seq<char> },
    Other { text: Seq<char> },
}

impl View for RegexErrorText {
    type V = RegexErrorTextV;

    open spec fn view(&self) -> RegexErrorTextV {
        match self {
            RegexErrorText::Syntax { text } => RegexErrorTextV::Syntax { text: text@ },
            RegexErrorText::Other { text } => RegexErrorTextV::Other { text: text@ },
        }
    }
}

/// Relies on `regex::Error`: its `Syntax` variant carries the syntax error
/// text; every other variant is rendered through its `Display` form.
#[verifier::external_body]
fn rx_error_text(e: regex::Error) -> (r: RegexErrorText)
{
    match e {
        regex::Error::Syntax(text) => RegexErrorText::Syntax { text },
        other => RegexErrorText::Other { text: format!("{other}") },
    }
}

/// The anchored form a pattern is compiled in: matching it means matching
/// the whole string.
pub open spec fn wrapped(t: Seq<char>) -> Seq<char> {
    "^("@ + t + ")$"@
}

/// The anchored forms of all patterns.
pub open spec fn wrapped_all(ts: Seq<Seq<char>>) -> Seq<Seq<char>> {
    ts.map_values(|t: Seq<char>| wrapped(t))
}

/// The anchored form of one pattern.
fn wrap_pattern(t: &String) -> (r: String)
    ensures
        r@ == wrapped(t@),
{
    let mut r: String = "^(".to_owned();
    r.append(t.as_str());
    r.append(")$");
    r
}

/// A dynamic set of patterns.
///
/// `matched` always has the length of `items`; `set` is present only after a
/// successful build of exactly the current items, in anchored form.
pub struct PatternSet {
    pub items: Vec<String>,
    pub matched: Vec<bool>,
    pub set: Option<regex::RegexSet>,
    pub record_matches: bool,
}

impl PatternSet {
    /// The pattern texts.
    pub open spec fn patterns(self) -> Seq<Seq<char>> {
        self.items.deep_view()
    }

    /// Well-formedness: the flags track the items one to one, and a present
    /// compiled set was built from the current items in anchored form.
    pub open spec fn wf(self) -> bool {
        &&& self.matched@.len() == self.items@.len()
        &&& match self.set {
            Some(s) => compiled_patterns(s) == wrapped_all(self.patterns()) && regex_set_compiles(
                wrapped_all(self.patterns()),
            ),
            None => true,
        }
    }

    /// Whether some pattern of the built set matches the whole candidate.
    pub open spec fn spec_matches(self, t: Seq<char>) -> bool {
        &&& self.set is Some
        &&& exists|i: int|
            0 <= i < self.patterns().len() && regex_match_indices(wrapped_all(self.patterns()), t).contains(i)
    }

    /// Is this set empty?
    pub fn is_empty(&self) -> (r: bool)
        ensures
            r == (self.items@.len() == 0),
    {
        self.items.is_empty()
    }

    /// Appends a pattern; any compiled matcher is invalidated until the next
    /// build.
    pub fn insert(&mut self, pattern: &str)
        requires
            old(self).wf(),
        ensures
            final(self).wf(),
            final(self).patterns() == old(self).patterns().push(pattern@),
            final(self).matched@ == old(self).matched@.push(false),
            final(self).set is None,
            final(self).record_matches == old(self).record_matches,
    {
        self.items.push(pattern.to_owned());
        self.matched.push(false);
        self.set = None;
        proof {
            assert(self.patterns() =~= old(self).patterns().push(pattern@));
        }
    }

    /// The pattern texts accumulated so far, in insertion order.
    pub fn get_items(&self) -> (r: &Vec<String>)
        ensures
            r.deep_view() == self.patterns(),
    {
        &self.items
    }
}

/// An annotation level of a diagnostic.
#[derive(Clone, Copy, PartialEq, Eq, Structural, Debug)]
pub enum Level {
    Error,
    Warning,
    Info,
    Note,
    Help,
}

/// One annotation of a diagnostic.
#[derive(Clone, PartialEq, Eq, Debug)]
pub struct Annotation {
    pub level: Level,
    pub text: String,
}

/// The mathematical value of an [`Annotation`].
#[verifier::ext_equal]
pub struct AnnotationV {
    pub level: Level,
    pub text: Seq<char>,
}

impl View for Annotation {
    type V = AnnotationV;

    open spec fn view(&self) -> AnnotationV {
        AnnotationV { level: self.level, text: self.text@ }
    }
}

impl DeepView for Annotation {
    type V = AnnotationV;

    open spec fn deep_view(&self) -> AnnotationV {
        self.view()
    }
}

/// A diagnostic for a malformed pattern: a titled warning, the offending
/// source excerpt when one can be carved out of the compile error, and
/// annotations, among them the attribution to the option the pattern came
/// from and guidance on bare wildcards.
#[derive(Clone, PartialEq, Eq, Debug)]
pub struct RegexDiagnostic {
    pub title: String,
    pub title_level: Level,
    pub source: String,
    pub annotations: Vec<Annotation>,
}

/// The mathematical value of a [`RegexDiagnostic`].
#[verifier::ext_equal]
pub struct RegexDiagnosticV {
    pub title: Seq<char>,
    pub title_level: Level,
    pub source: Seq<char>,
    pub annotations: Seq<AnnotationV>,
}

impl View for RegexDiagnostic {
    type V = RegexDiagnosticV;

    open spec fn view(&self) -> RegexDiagnosticV {
        RegexDiagnosticV {
            title: self.title@,
            title_level: self.title_level,
            source: self.source@,
            annotations: self.annotations.deep_view(),
        }
    }
}

/// Whether `p` is a prefix of `s`.
pub open spec fn starts_with(s: Seq<char>, p: Seq<char>) -> bool {
    s.len() >= p.len() && s.take(p.len() as int) == p
}

/// A line with a trailing carriage return removed.
pub open spec fn strip_cr(l: Seq<char>) -> Seq<char> {
    if l.len() > 0 && l.last() == '\r' {
        l.drop_last()
    } else {
        l
    }
}

/// One character of line splitting: a newline finishes the current line.
pub open spec fn lines_step(acc: (Seq<Seq<char>>, Seq<char>), c: char) -> (Seq<Seq<char>>, Seq<char>) {
    if c == '\n' {
        (acc.0.push(strip_cr(acc.1)), Seq::<char>::empty())
    } else {
        (acc.0, acc.1.push(c))
    }
}

/// Line splitting folded over the text, in order.
pub open spec fn lines_fold(acc: (Seq<Seq<char>>, Seq<char>), s: Seq<char>) -> (Seq<Seq<char>>, Seq<char>)
    decreases s.len(),
{
    if s.len() == 0 {
        acc
    } else {
        lines_step(lines_fold(acc, s.drop_last()), s.last())
    }
}

/// The lines of a text: split at newlines, a trailing carriage return
/// stripped from each, an unterminated final line kept.
pub open spec fn split_lines(s: Seq<char>) -> Seq<Seq<char>> {
    let acc = lines_fold((Seq::<Seq<char>>::empty(), Seq::<char>::empty()), s);
    if acc.1.len() == 0 {
        acc.0
    } else {
        acc.0.push(acc.1)
    }
}

/// The marker opening the multi-line form of a syntax error.
pub open spec fn parse_error_marker() -> Seq<char> {
    "regex parse error:\n"@
}

/// The prefix of an error annotation line.
pub open spec fn error_prefix() -> Seq<char> {
    "error: "@
}

/// One line of the syntax-error body: while source parsing is on, a line
/// starting with a space joins the source excerpt; any other line ends
/// source parsing and becomes an annotation, an error one when it carries
/// the error prefix, an informational one otherwise.
pub open spec fn parse_step(acc: (bool, Seq<char>, Seq<AnnotationV>), line: Seq<char>) -> (
    bool,
    Seq<char>,
    Seq<AnnotationV>,
) {
    if acc.0 && line.len() > 0 && line.first() == ' ' {
        (true, acc.1 + line + seq!['\n'], acc.2)
    } else if starts_with(line, error_prefix()) {
        (
            false,
            acc.1,
            acc.2.push(AnnotationV { level: Level::Error, text: line.skip(error_prefix().len() as int) }),
        )
    } else {
        (false, acc.1, acc.2.push(AnnotationV { level: Level::Info, text: line }))
    }
}

/// The syntax-error body parse folded over the lines, in order.
pub open spec fn parse_fold(acc: (bool, Seq<char>, Seq<AnnotationV>), lines: Seq<Seq<char>>) -> (
    bool,
    Seq<char>,
    Seq<AnnotationV>,
)
    decreases lines.len(),
{
    if lines.len() == 0 {
        acc
    } else {
        parse_step(parse_fold(acc, lines.drop_last()), lines.last())
    }
}

/// The source excerpt and annotations carved out of a multi-line syntax
/// error text: every line after the first is processed by [`parse_step`].
pub open spec fn parsed_syntax(text: Seq<char>) -> (Seq<char>, Seq<AnnotationV>) {
    let acc = parse_fold(
        (true, Seq::<char>::empty(), Seq::<AnnotationV>::empty()),
        split_lines(text).skip(1),
    );
    (acc.1, acc.2)
}

/// The title of a parsed syntax-error diagnostic.
pub open spec fn syntax_title() -> Seq<char> {
    "Error while parsing a regular expression."@
}

/// The attribution annotation text.
pub open spec fn note_text(name: Seq<char>) -> Seq<char> {
    "This regular expression was passed via `"@ + name + "`."@
}

/// The guidance shown when a bare wildcard pattern is present.
pub open spec fn wildcard_help() -> Seq<char> {
    "Wildcard patterns \"*\" are no longer considered valid. Use \".*\" instead."@
}

/// Whether some pattern is the bare wildcard `*`.
pub open spec fn has_wildcard(items: Seq<Seq<char>>) -> bool {
    exists|i: int| 0 <= i < items.len() && items[i] == "*"@
}

/// The annotations every malformed-pattern diagnostic ends with: the
/// attribution note, then the wildcard guidance when a bare `*` is present.
pub open spec fn trailing_notes(items: Seq<Seq<char>>, name: Seq<char>) -> Seq<AnnotationV> {
    let n = seq![AnnotationV { level: Level::Note, text: note_text(name) }];
    if has_wildcard(items) {
        n.push(AnnotationV { level: Level::Help, text: wildcard_help() })
    } else {
        n
    }
}

/// The diagnostic produced for a compile error: a warning titled by the
/// error text, or, for the multi-line syntax form, by a fixed title with the
/// source excerpt and per-line annotations; the trailing notes follow.
pub open spec fn diagnostic_spec(items: Seq<Seq<char>>, err: RegexErrorTextV, name: Seq<char>) -> RegexDiagnosticV {
    match err {
        RegexErrorTextV::Syntax { text } => {
            if starts_with(text, parse_error_marker()) {
                RegexDiagnosticV {
                    title: syntax_title(),
                    title_level: Level::Warning,
                    source: parsed_syntax(text).0,
                    annotations: parsed_syntax(text).1 + trailing_notes(items, name),
                }
            } else {
                RegexDiagnosticV {
                    title: text,
                    title_level: Level::Warning,
                    source: Seq::empty(),
                    annotations: trailing_notes(items, name),
                }
            }
        },
        RegexErrorTextV::Other { text } => RegexDiagnosticV {
            title: text,
            title_level: Level::Warning,
            source: Seq::empty(),
            annotations: trailing_notes(items, name),
        },
    }
}

/// A non-empty text splits into at least one line.
proof fn lemma_split_lines_nonempty(s: Seq<char>)
    requires
        s.len() > 0,
    ensures
        split_lines(s).len() >= 1,
{
    let acc = lines_fold((Seq::<Seq<char>>::empty(), Seq::<char>::empty()), s);
    let prev = lines_fold((Seq::<Seq<char>>::empty(), Seq::<char>::empty()), s.drop_last());
    assert(acc == lines_step(prev, s.last()));
    if s.last() == '\n' {
        assert(acc.0.len() >= 1);
    } else {
        assert(acc.1.len() >= 1);
    }
}

/// Whether `p` is a prefix of `s`.
fn starts_with_chars(s: &Vec<char>, p: &Vec<char>) -> (r: bool)
    ensures
        r == starts_with(s@, p@),
{
    if s.len() < p.len() {
        assert(!starts_with(s@, p@));
        return false;
    }
    let mut i: usize = 0;
    while i < p.len()
        invariant
            i <= p@.len() <= s@.len(),
            forall|j: int| 0 <= j < i ==> s@[j] == p@[j],
        decreases p@.len() - i,
    {
        if s[i] != p[i] {
            proof {
                assert(s@.take(p@.len() as int)[i as int] != p@[i as int]);
            }
            return false;
        }
        i += 1;
    }
    proof {
        assert(s@.take(p@.len() as int) =~= p@);
    }
    true
}

/// The elements of `v` from position `n` on.
fn skip_chars(v: &Vec<char>, n: usize) -> (r: Vec<char>)
    requires
        n <= v@.len(),
    ensures
        r@ == v@.skip(n as int),
{
    let mut r: Vec<char> = Vec::new();
    let mut i: usize = n;
    while i < v.len()
        invariant
            n <= i <= v@.len(),
            r@ == v@.subrange(n as int, i as int),
        decreases v@.len() - i,
    {
        r.push(v[i]);
        proof {
            assert(v@.subrange(n as int, i + 1) =~= v@.subrange(n as int, i as int).push(v@[i as int]));
        }
        i += 1;
    }
    r
}

/// The lines of the text, as [`split_lines`] gives them.
fn split_lines_exec(s: &Vec<char>) -> (r: Vec<Vec<char>>)
    ensures
        r.deep_view() == split_lines(s@),
{
    let ghost init = (Seq::<Seq<char>>::empty(), Seq::<char>::empty());
    let mut lines: Vec<Vec<char>> = Vec::new();
    let mut cur: Vec<char> = Vec::new();
    let mut i: usize = 0;
    proof {
        assert(lines.deep_view() =~= init.0);
    }
    while i < s.len()
        invariant
            i <= s@.len(),
            (lines.deep_view(), cur@) == lines_fold(
                (Seq::<Seq<char>>::empty(), Seq::<char>::empty()),
                s@.take(i as int),
            ),
        decreases s@.len() - i,
    {
        let c = s[i];
        let ghost pre_lines = lines.deep_view();
        let ghost pre_cur = cur@;
        if c == '\n' {
            if cur.len() > 0 && cur[cur.len() - 1] == '\r' {
                cur.pop();
                proof {
                    assert(cur@ =~= strip_cr(pre_cur));
                }
            }
            proof {
                assert(cur@ == strip_cr(pre_cur));
            }
            lines.push(cur);
            cur = Vec::new();
            proof {
                assert(lines.deep_view() =~= pre_lines.push(strip_cr(pre_cur)));
                assert(cur@ =~= Seq::<char>::empty());
            }
        } else {
            cur.push(c);
        }
        proof {
            crate::views::lemma_take_step(s@, i as int);
        }
        i += 1;
    }
    proof {
        assert(s@.take(s@.len() as int) =~= s@);
    }
    if cur.len() > 0 {
        let ghost pre_lines = lines.deep_view();
        lines.push(cur);
        proof {
            assert(lines.deep_view() =~= pre_lines.push(lines@.last()@));
        }
    }
    lines
}

/// Whether some pattern of `items` is the bare wildcard `*`.
fn has_wildcard_exec(items: &Vec<String>) -> (r: bool)
    ensures
        r == has_wildcard(items.deep_view()),
{
    let star: String = "*".to_owned();
    let mut i: usize = 0;
    while i < items.len()
        invariant
            i <= items@.len(),
            star@ == "*"@,
            forall|j: int| 0 <= j < i ==> items.deep_view()[j] != "*"@,
        decreases items@.len() - i,
    {
        if items[i] == star {
            proof {
                assert(items.deep_view()[i as int] == "*"@);
            }
            return true;
        }
        i += 1;
    }
    false
}

/// The annotations every malformed-pattern diagnostic ends with.
fn trailing_notes_exec(items: &Vec<String>, name: &str) -> (r: Vec<Annotation>)
    ensures
        r.deep_view() == trailing_notes(items.deep_view(), name@),
{
    let mut note: String = "This regular expression was passed via `".to_owned();
    note.append(name);
    note.append("`.");
    let mut r: Vec<Annotation> = Vec::new();
    r.push(Annotation { level: Level::Note, text: note });
    proof {
        assert(r.deep_view() =~= seq![AnnotationV { level: Level::Note, text: note_text(name@) }]);
    }
    if has_wildcard_exec(items) {
        let ghost pre = r.deep_view();
        r.push(
            Annotation {
                level: Level::Help,
                text: "Wildcard patterns \"*\" are no longer considered valid. Use \".*\" instead.".to_owned(),
            },
        );
        proof {
            assert(r.deep_view() =~= pre.push(AnnotationV { level: Level::Help, text: wildcard_help() }));
        }
    }
    r
}

/// Builds the warning diagnostic for a compile error: the multi-line syntax
/// form is parsed into a source excerpt and per-line annotations; any other
/// error titles the diagnostic with its own text. The attribution note and,
/// when a bare `*` pattern is present, the wildcard guidance are appended.
pub fn invalid_regex_warning(items: &Vec<String>, err: RegexErrorText, name: &str) -> (r: RegexDiagnostic)
    ensures
        r@ == diagnostic_spec(items.deep_view(), err@, name@),
{
    let trailing = trailing_notes_exec(items, name);
    match err {
        RegexErrorText::Syntax { text } => {
            let tc = chars_of(text.as_str());
            let marker = chars_of("regex parse error:\n");
            if starts_with_chars(&tc, &marker) {
                let lines = split_lines_exec(&tc);
                let ghost lview = lines.deep_view();
                let prefix = chars_of("error: ");
                let mut parsing_source: bool = true;
                let mut source: Vec<char> = Vec::new();
                let mut annotations: Vec<Annotation> = Vec::new();
                let mut i: usize = 1;
                proof {
                    reveal_strlit("regex parse error:\n");
                    assert(parse_error_marker().len() > 0);
                    assert(tc@.len() > 0);
                    lemma_split_lines_nonempty(tc@);
                    assert(lview.skip(1).take(0) =~= Seq::<Seq<char>>::empty());
                    assert(annotations.deep_view() =~= Seq::<AnnotationV>::empty());
                }
                while i < lines.len()
                    invariant
                        1 <= i <= lview.len(),
                        lines.deep_view() == lview,
                        prefix@ == error_prefix(),
                        (parsing_source, source@, annotations.deep_view()) == parse_fold(
                            (true, Seq::<char>::empty(), Seq::<AnnotationV>::empty()),
                            lview.skip(1).take(i - 1),
                        ),
                    decreases lview.len() - i,
                {
                    let line = &lines[i];
                    let ghost lv = lview[i as int];
                    proof {
                        assert(line@ == lines.deep_view()[i as int]);
                        assert(line@ == lv);
                    }
                    let ghost pre_ann = annotations.deep_view();
                    let ghost pre_src = source@;
                    let ghost pre_flag = parsing_source;
                    if parsing_source && line.len() > 0 && line[0] == ' ' {
                        let mut j: usize = 0;
                        while j < line.len()
                            invariant
                                j <= line@.len(),
                                line@ == lv,
                                source@ == pre_src + lv.take(j as int),
                            decreases line@.len() - j,
                        {
                            source.push(line[j]);
                            proof {
                                assert(lv.take(j + 1) =~= lv.take(j as int).push(lv[j as int]));
                                assert(source@ =~= pre_src + lv.take(j + 1));
                            }
                            j += 1;
                        }
                        source.push('\n');
                        proof {
                            assert(lv.take(lv.len() as int) =~= lv);
                            assert(source@ =~= pre_src + lv + seq!['\n']);
                        }
                    } else if starts_with_chars(line, &prefix) {
                        parsing_source = false;
                        let tail = skip_chars(line, prefix.len());
                        annotations.push(Annotation { level: Level::Error, text: string_from_chars(&tail) });
                        proof {
                            assert(annotations.deep_view() =~= pre_ann.push(
                                AnnotationV { level: Level::Error, text: lv.skip(error_prefix().len() as int) },
                            ));
                        }
                    } else {
                        parsing_source = false;
                        annotations.push(Annotation { level: Level::Info, text: string_from_chars(line) });
                        proof {
                            assert(annotations.deep_view() =~= pre_ann.push(
                                AnnotationV { level: Level::Info, text: lv },
                            ));
                        }
                    }
                    proof {
                        crate::views::lemma_take_step(lview.skip(1), i - 1);
                        assert(lview.skip(1)[i - 1] == lview[i as int]);
                        assert((parsing_source, source@, annotations.deep_view()) == parse_step(
                            parse_fold(
                                (true, Seq::<char>::empty(), Seq::<AnnotationV>::empty()),
                                lview.skip(1).take(i - 1),
                            ),
                            lview[i as int],
                        ));
                    }
                    i += 1;
                }
                proof {
                    assert(lview.skip(1).take(lview.len() - 1) =~= lview.skip(1));
                    assert((parsing_source, source@, annotations.deep_view()) == parse_fold(
                        (true, Seq::<char>::empty(), Seq::<AnnotationV>::empty()),
                        lview.skip(1),
                    ));
                }
                let mut all = annotations;
                let ghost parsed_ann = all.deep_view();
                let mut t = trailing;
                let tn = t.len();
                let ghost tview = t.deep_view();
                let mut q: usize = 0;
                while t.len() > 0
                    invariant
                        q + t@.len() == tn,
                        q <= tn,
                        tn == tview.len(),
                        t.deep_view() =~= tview.skip(q as int),
                        all.deep_view() == parsed_ann + tview.take(q as int),
                    decreases t@.len(),
                {
                    let ghost tprev = t;
                    let a = t.remove(0);
                    proof {
                        crate::views::lemma_deep_remove_front(tprev, t);
                        assert(a@ == tview.skip(q as int)[0]);
                        assert(tview.skip(q as int)[0] == tview[q as int]);
                        assert(tview.skip(q as int).skip(1) =~= tview.skip(q as int + 1));
                    }
                    let ghost pre_all = all.deep_view();
                    all.push(a);
                    proof {
                        crate::views::lemma_take_step(tview, q as int);
                        assert(all.deep_view() =~= pre_all.push(tview[q as int]));
                        assert(all.deep_view() =~= parsed_ann + tview.take(q as int + 1));
                    }
                    q += 1;
                }
                proof {
                    assert(tview.take(tview.len() as int) =~= tview);
                    assert(all.deep_view() =~= parsed_ann + tview);
                }
                let d = RegexDiagnostic {
                    title: "Error while parsing a regular expression.".to_owned(),
                    title_level: Level::Warning,
                    source: string_from_chars(&source),
                    annotations: all,
                };
                proof {
                    assert(d@ =~= diagnostic_spec(
                        items.deep_view(),
                        RegexErrorTextV::Syntax { text: tc@ },
                        name@,
                    ));
                }
                d
            } else {
                let d = RegexDiagnostic {
                    title: text,
                    title_level: Level::Warning,
                    source: String::new(),
                    annotations: trailing,
                };
                proof {
                    assert(d@ =~= diagnostic_spec(
                        items.deep_view(),
                        RegexErrorTextV::Syntax { text: tc@ },
                        name@,
                    ));
                }
                d
            }
        },
        RegexErrorText::Other { text } => {
            let d = RegexDiagnostic {
                title: text,
                title_level: Level::Warning,
                source: String::new(),
                annotations: trailing,
            };
            proof {
                assert(d@ =~= diagnostic_spec(items.deep_view(), err@, name@));
            }
            d
        },
    }
}

impl Default for PatternSet {
    /// The empty pattern set: no patterns, no compiled matcher, not
    /// recording.
    fn default() -> (r: Self)
        ensures
            r.wf(),
            r.patterns().len() == 0,
            r.matched@.len() == 0,
            r.set is None,
            !r.record_matches,
    {
        PatternSet { items: Vec::new(), matched: Vec::new(), set: None, record_matches: false }
    }
}

/// Whether `v` holds the value `x`.
fn contains_usize(v: &Vec<usize>, x: usize) -> (r: bool)
    ensures
        r == (exists|j: int| 0 <= j < v@.len() && v@[j] == x),
{
    let mut i: usize = 0;
    while i < v.len()
        invariant
            i <= v@.len(),
            forall|j: int| 0 <= j < i ==> v@[j] != x,
        decreases v@.len() - i,
    {
        if v[i] == x {
            return true;
        }
        i += 1;
    }
    false
}

impl PatternSet {
    /// The patterns whose matched flag is still unset, in order.
    pub open spec fn unmatched_of(items: Seq<Seq<char>>, flags: Seq<bool>) -> Seq<Seq<char>>
        decreases items.len(),
    {
        if items.len() == 0 {
            Seq::empty()
        } else {
            let p = Self::unmatched_of(items.drop_last(), flags.drop_last());
            if flags.last() {
                p
            } else {
                p.push(items.last())
            }
        }
    }

    /// What `unmatched_items` yields: nothing unless matches are recorded,
    /// else the patterns never yet matched.
    pub open spec fn unmatched_spec(self) -> Seq<Seq<char>> {
        if !self.record_matches {
            Seq::empty()
        } else {
            Self::unmatched_of(self.patterns(), self.matched@)
        }
    }

    /// Compiles the accumulated patterns, each anchored to require a
    /// full-string match, and resets the coverage flags; on a malformed
    /// pattern the whole set is left without a matcher and the compile
    /// error's text is returned.
    fn build_inner(&mut self, record_matches: bool) -> (r: Option<RegexErrorText>)
        requires
            old(self).wf(),
        ensures
            final(self).wf(),
            final(self).items == old(self).items,
            final(self).record_matches == record_matches,
            final(self).matched@ == Seq::new(old(self).items@.len(), |i: int| false),
            (final(self).set is Some) <==> regex_set_compiles(wrapped_all(old(self).patterns())),
            (r is Some) <==> !regex_set_compiles(wrapped_all(old(self).patterns())),
    {
        let mut anchored: Vec<String> = Vec::new();
        let mut i: usize = 0;
        while i < self.items.len()
            invariant
                i <= self.items@.len(),
                *self == *old(self),
                anchored.deep_view() == wrapped_all(old(self).patterns().take(i as int)),
            decreases self.items@.len() - i,
        {
            let ghost pre = anchored.deep_view();
            anchored.push(wrap_pattern(&self.items[i]));
            proof {
                assert(anchored.deep_view() =~= pre.push(wrapped(old(self).patterns()[i as int])));
                assert(wrapped_all(old(self).patterns().take(i + 1)) =~= wrapped_all(
                    old(self).patterns().take(i as int),
                ).push(wrapped(old(self).patterns()[i as int])));
            }
            i += 1;
        }
        proof {
            assert(old(self).patterns().take(old(self).items@.len() as int) =~= old(self).patterns());
        }
        self.record_matches = record_matches;
        let mut flags: Vec<bool> = Vec::new();
        let mut j: usize = 0;
        while j < self.items.len()
            invariant
                j <= self.items@.len(),
                self.items == old(self).items,
                flags@ == Seq::new(j as nat, |i: int| false),
            decreases self.items@.len() - j,
        {
            flags.push(false);
            proof {
                assert(flags@ =~= Seq::new((j + 1) as nat, |i: int| false));
            }
            j += 1;
        }
        self.matched = flags;
        match rx_build(&anchored) {
            Ok(s) => {
                self.set = Some(s);
                None
            },
            Err(e) => {
                self.set = None;
                Some(rx_error_text(e))
            },
        }
    }

    /// Compiles the accumulated patterns; must be called before `matches`,
    /// which otherwise returns false unconditionally. `record_matches`
    /// decides whether later matches update the coverage flags.
    pub fn build(&mut self, record_matches: bool)
        requires
            old(self).wf(),
        ensures
            final(self).wf(),
            final(self).items == old(self).items,
            final(self).record_matches == record_matches,
            final(self).matched@ == Seq::new(old(self).items@.len(), |i: int| false),
            (final(self).set is Some) <==> regex_set_compiles(wrapped_all(old(self).patterns())),
    {
        self.build_inner(record_matches);
    }

    /// Compiles like `build` and, when the set is named, hands back the
    /// diagnostic for a malformed pattern.
    pub fn build_with_diagnostics(&mut self, record_matches: bool, name: Option<&str>) -> (r: Option<
        RegexDiagnostic,
    >)
        requires
            old(self).wf(),
        ensures
            final(self).wf(),
            final(self).items == old(self).items,
            final(self).record_matches == record_matches,
            final(self).matched@ == Seq::new(old(self).items@.len(), |i: int| false),
            (final(self).set is Some) <==> regex_set_compiles(wrapped_all(old(self).patterns())),
            (r is Some) <==> (!regex_set_compiles(wrapped_all(old(self).patterns())) && name is Some),
            r is Some ==> (exists|e: RegexErrorTextV|
                r->0@ == diagnostic_spec(old(self).patterns(), e, name->0@)),
    {
        let err = self.build_inner(record_matches);
        match err {
            Some(e) => match name {
                Some(n) => {
                    let ghost ev = e@;
                    let d = invalid_regex_warning(&self.items, e, n);
                    proof {
                        assert(d@ == diagnostic_spec(old(self).patterns(), ev, name->0@));
                    }
                    Some(d)
                },
                None => None,
            },
            None => None,
        }
    }

    /// Whether any pattern matches the whole candidate. Without a compiled
    /// matcher this is false unconditionally. When recording, the flag of
    /// every matching pattern is set.
    pub fn matches(&mut self, candidate: &str) -> (r: bool)
        requires
            old(self).wf(),
        ensures
            final(self).wf(),
            final(self).items == old(self).items,
            final(self).set == old(self).set,
            final(self).record_matches == old(self).record_matches,
            r == old(self).spec_matches(candidate@),
            !old(self).record_matches ==> final(self).matched == old(self).matched,
            old(self).record_matches ==> final(self).matched@.len() == old(self).matched@.len(),
            old(self).record_matches ==> (forall|i: int|
                0 <= i < final(self).matched@.len() ==> final(self).matched@[i] == (old(self).matched@[i]
                    || (old(self).set is Some && regex_match_indices(
                    wrapped_all(old(self).patterns()),
                    candidate@,
                ).contains(i)))),
    {
        if self.set.is_none() {
            return false;
        }
        if !self.record_matches {
            let s = self.set.as_ref().unwrap();
            let r = rx_is_match(s, candidate);
            proof {
                assert(compiled_patterns(*s) == wrapped_all(old(self).patterns()));
                assert(wrapped_all(old(self).patterns()).len() == old(self).patterns().len());
            }
            r
        } else {
            let idxs = {
                let s = self.set.as_ref().unwrap();
                rx_matched_indices(s, candidate)
            };
            proof {
                assert(wrapped_all(old(self).patterns()).len() == old(self).patterns().len());
            }
            let n = self.matched.len();
            let mut updated: Vec<bool> = Vec::new();
            let mut i: usize = 0;
            while i < n
                invariant
                    i <= n,
                    *self == *old(self),
                    n == old(self).matched@.len(),
                    n == old(self).items@.len(),
                    old(self).set is Some,
                    forall|j: int| 0 <= j < idxs@.len() ==> idxs@[j] < old(self).patterns().len(),
                    forall|j: int|
                        0 <= j < idxs@.len() ==> regex_match_indices(
                            wrapped_all(old(self).patterns()),
                            candidate@,
                        ).contains(idxs@[j] as int),
                    forall|q: int|
                        0 <= q < old(self).patterns().len() && regex_match_indices(
                            wrapped_all(old(self).patterns()),
                            candidate@,
                        ).contains(q) ==> exists|j: int| 0 <= j < idxs@.len() && idxs@[j] as int == q,
                    updated@.len() == i,
                    forall|q: int|
                        0 <= q < i ==> updated@[q] == (old(self).matched@[q] || regex_match_indices(
                            wrapped_all(old(self).patterns()),
                            candidate@,
                        ).contains(q)),
                decreases n - i,
            {
                let hit = contains_usize(&idxs, i);
                proof {
                    if hit {
                        let j = choose|j: int| 0 <= j < idxs@.len() && idxs@[j] == i;
                        assert(regex_match_indices(wrapped_all(old(self).patterns()), candidate@).contains(
                            i as int,
                        ));
                    } else {
                        if regex_match_indices(wrapped_all(old(self).patterns()), candidate@).contains(
                            i as int,
                        ) {
                            assert(exists|j: int| 0 <= j < idxs@.len() && idxs@[j] as int == i);
                            let j = choose|j: int| 0 <= j < idxs@.len() && idxs@[j] as int == i;
                            assert(idxs@[j] == i);
                            assert(false);
                        }
                    }
                }
                updated.push(self.matched[i] || hit);
                i += 1;
            }
            self.matched = updated;
            let any = !idxs.is_empty();
            proof {
                if any {
                    assert(regex_match_indices(wrapped_all(old(self).patterns()), candidate@).contains(
                        idxs@[0] as int,
                    ));
                    assert(old(self).spec_matches(candidate@));
                } else {
                    if old(self).spec_matches(candidate@) {
                        let q = choose|q: int|
                            0 <= q < old(self).patterns().len() && regex_match_indices(
                                wrapped_all(old(self).patterns()),
                                candidate@,
                            ).contains(q);
                        assert(exists|j: int| 0 <= j < idxs@.len() && idxs@[j] as int == q);
                        assert(false);
                    }
                }
            }
            any
        }
    }

    /// The patterns that never matched any candidate, in insertion order;
    /// empty unless matches were recorded.
    pub fn unmatched_items(&self) -> (r: Vec<String>)
        requires
            self.wf(),
        ensures
            r.deep_view() == self.unmatched_spec(),
    {
        let mut r: Vec<String> = Vec::new();
        if !self.record_matches {
            return r;
        }
        let mut i: usize = 0;
        while i < self.items.len()
            invariant
                i <= self.items@.len(),
                self.matched@.len() == self.items@.len(),
                r.deep_view() == Self::unmatched_of(self.patterns().take(i as int), self.matched@.take(i as int)),
            decreases self.items@.len() - i,
        {
            proof {
                crate::views::lemma_take_step(self.patterns(), i as int);
                crate::views::lemma_take_step(self.matched@, i as int);
            }
            if !self.matched[i] {
                let ghost pre = r.deep_view();
                r.push(self.items[i].clone());
                proof {
                    assert(r.deep_view() =~= pre.push(self.patterns()[i as int]));
                }
            }
            i += 1;
        }
        proof {
            assert(self.patterns().take(self.items@.len() as int) =~= self.patterns());
            assert(self.matched@.take(self.items@.len() as int) =~= self.matched@);
        }
        r
    }
}

} // verus!
